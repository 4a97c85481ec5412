use crate::wal::entries::{
    ChangeEntry, ChangeEntryView, Checkpoint, CheckpointView, InsertEntry, InsertEntryView,
    LogEntryView, SingleLogEntry, Transaction,
};
use crate::wal::calls::{held_view, op_calls, StoreCall, Watched};
use crate::wal::iterator::{ReadDirection, WalIterator, WalIteratorView};
use crate::wal::reading::{all_encodable, lemma_log_round_trip, log_file};
use crate::wal::record::BLOCK_SIZE;
use crate::wal::tids::{
    distinct, lemma_distinct, lemma_max_tid, lemma_with_tid, lemma_without_tid, max_tid,
    with_tid, without_tid, TidSet,
};
use crate::wal::{
    applied, apply_ops, backward_entries, entries_bytes, entry_views, op_views,
    read_serializable_backwards, staged_entries, used_after, write_entries, KeyView, LogData,
    LogStore, Progress, RecoverState, RecoverStateView, StoreOp, StoreOpView, ValueView,
};
use crate::Serializable;
use std::collections::VecDeque;
use vstd::prelude::*;

verus! {

/// What an undo recovery knows on its way back through the log.
pub struct UndoScan<K, V> {
    /// The transactions that were seen to commit or abort.
    pub finished: Seq<u64>,
    /// The transactions whose writes are taken back.
    pub unfinished: Seq<u64>,
    /// What was seen of checkpoints.
    pub state: RecoverStateView,
    /// What the store is to do to take the writes back, in this order.
    pub ops: Seq<StoreOpView<K, V>>,
}

impl<K, V> UndoScan<K, V> {
    /// What a recovery knows before it has read anything.
    pub open spec fn start() -> Self {
        UndoScan {
            finished: Seq::empty(),
            unfinished: Seq::empty(),
            state: RecoverStateView::Fresh,
            ops: Seq::empty(),
        }
    }

    /// What the recovery knows after it has read `entry`. A commit or an
    /// abort finishes its transaction. An insert of a transaction that is
    /// not finished is taken back by removing the key, a change by
    /// putting the logged value under the key. An end mark before
    /// any other mark is noted. A begin mark that names transactions,
    /// where none was read before it, tells the recovery to read on to
    /// the start of each of them.
    pub open spec fn step(self, entry: LogEntryView<K, V>) -> Self {
        match entry {
            LogEntryView::Transaction(Transaction::Commit(id)) => UndoScan {
                finished: with_tid(self.finished, id),
                ..self
            },
            LogEntryView::Transaction(Transaction::Abort(id)) => UndoScan {
                finished: with_tid(self.finished, id),
                ..self
            },
            LogEntryView::Transaction(Transaction::Start(id)) => match self.state {
                RecoverStateView::Begin(tids) => UndoScan {
                    state: RecoverStateView::Begin(without_tid(tids, id)),
                    ..self
                },
                _ => self,
            },
            LogEntryView::InsertEntry(entry) => if self.finished.contains(entry.tid) {
                self
            } else {
                UndoScan {
                    unfinished: with_tid(self.unfinished, entry.tid),
                    ops: self.ops.push(StoreOpView::Remove(entry.key)),
                    ..self
                }
            },
            LogEntryView::ChangeEntry(entry) => if self.finished.contains(entry.tid) {
                self
            } else {
                UndoScan {
                    unfinished: with_tid(self.unfinished, entry.tid),
                    ops: self.ops.push(StoreOpView::Update(entry.key, entry.value)),
                    ..self
                }
            },
            LogEntryView::Checkpoint(CheckpointView::Begin(tids)) => match self.state {
                RecoverStateView::Begin(_) => self,
                _ => if tids.len() == 0 {
                    self
                } else {
                    UndoScan { state: RecoverStateView::Begin(distinct(tids)), ..self }
                },
            },
            LogEntryView::Checkpoint(CheckpointView::End) => match self.state {
                RecoverStateView::Fresh => UndoScan { state: RecoverStateView::End, ..self },
                _ => self,
            },
        }
    }

    /// Whether the recovery stops after `entry`: at the start of the last
    /// transaction that a begin mark told it to read on to, and at a begin
    /// mark that names no transaction, unless a begin mark was read
    /// before.
    pub open spec fn stops(self, entry: LogEntryView<K, V>) -> bool {
        match entry {
            LogEntryView::Transaction(Transaction::Start(id)) => match self.state {
                RecoverStateView::Begin(tids) => without_tid(tids, id).len() == 0,
                _ => false,
            },
            LogEntryView::Checkpoint(CheckpointView::Begin(tids)) => match self.state {
                RecoverStateView::Begin(_) => false,
                _ => tids.len() == 0,
            },
            _ => false,
        }
    }

    /// What the recovery knows after the entries, read in this order, as
    /// far as it reads them.
    pub open spec fn replay(self, entries: Seq<LogEntryView<K, V>>) -> Self
        decreases entries.len(),
    {
        if entries.len() == 0 {
            self
        } else if self.stops(entries[0]) {
            self.step(entries[0])
        } else {
            self.step(entries[0]).replay(entries.drop_first())
        }
    }

    /// The number of the entries that the recovery reads: all, or those
    /// up to the entry at which it stops.
    pub open spec fn reads(self, entries: Seq<LogEntryView<K, V>>) -> nat
        decreases entries.len(),
    {
        if entries.len() == 0 {
            0
        } else if self.stops(entries[0]) {
            1
        } else {
            1 + self.step(entries[0]).reads(entries.drop_first())
        }
    }

    /// The largest id of a transaction that the recovery has seen to
    /// finish or has taken back, 0 where there is none.
    pub open spec fn last_tid(self) -> u64 {
        if max_tid(self.unfinished) > max_tid(self.finished) {
            max_tid(self.unfinished)
        } else {
            max_tid(self.finished)
        }
    }
}

/// None of `tids` is among `active`.
pub open spec fn none_among(tids: Seq<u64>, active: Seq<u64>) -> bool {
    forall|i: int| 0 <= i < tids.len() ==> !active.contains(#[trigger] tids[i])
}

/// The entry that takes back a write to `key`: a change entry with the
/// value that the store held under the key, or an insert entry where it
/// held none.
pub open spec fn undo_entry<K, V>(tid: u64, key: K, old: Option<V>) -> LogEntryView<K, V> {
    match old {
        Some(value) => LogEntryView::ChangeEntry(ChangeEntryView { tid, key, value }),
        None => LogEntryView::InsertEntry(InsertEntryView { tid, key }),
    }
}

/// The abort entries of the transactions, in their order.
pub open spec fn abort_entries<K, V>(tids: Seq<u64>) -> Seq<LogEntryView<K, V>> {
    Seq::new(tids.len(), |i: int| LogEntryView::Transaction(Transaction::Abort(tids[i])))
}

/// The state of an undo log.
pub struct UndoLogView<K, V> {
    /// The bytes that the last block of the log file holds.
    pub used: nat,
    /// The entries staged since the last flush, oldest first.
    pub mem_log: Seq<LogEntryView<K, V>>,
    /// The id of the transaction that started last.
    pub last_tid: u64,
    /// The transactions of the checkpoint in progress, if there is one.
    pub checkpoint_tids: Option<Seq<u64>>,
    /// The transactions that have started and not committed.
    pub active_tids: Seq<u64>,
    /// The calls that the log has made of its store, oldest first.
    pub calls: Seq<StoreCall<K, V>>,
}

impl<K, V> UndoLogView<K, V> {
    /// The state after the log has made a call of its store.
    pub open spec fn asked(self, call: StoreCall<K, V>) -> Self {
        UndoLogView { calls: self.calls.push(call), ..self }
    }

    /// The state after the log has had its store do the operations, in
    /// their order, and then has asked it to flush, which the store
    /// could where `flushed`.
    pub open spec fn handed(self, ops: Seq<StoreOpView<K, V>>, flushed: bool) -> Self {
        UndoLogView {
            calls: (self.calls + op_calls(ops)).push(StoreCall::Flush(flushed)),
            ..self
        }
    }

    /// The state after a transaction has started.
    pub open spec fn started(self) -> Self {
        let tid = (self.last_tid + 1) as u64;
        UndoLogView {
            last_tid: tid,
            mem_log: self.mem_log.push(LogEntryView::Transaction(Transaction::Start(tid))),
            active_tids: with_tid(self.active_tids, tid),
            ..self
        }
    }

    /// The state after an entry was staged.
    pub open spec fn staged(self, entry: LogEntryView<K, V>) -> Self {
        UndoLogView { mem_log: self.mem_log.push(entry), ..self }
    }

    /// The state after the staged entries were handed out for writing.
    pub open spec fn flushed(self, written: nat) -> Self {
        UndoLogView { used: used_after(self.used, written), mem_log: Seq::empty(), ..self }
    }

    /// Whether the commit of `tid` ends the checkpoint in progress: no
    /// transaction of the checkpoint is active any more.
    pub open spec fn ends_checkpoint(self, tid: u64) -> bool {
        match self.checkpoint_tids {
            Some(tids) => none_among(tids, without_tid(self.active_tids, tid)),
            None => false,
        }
    }

    /// The entries that the commit of `tid` stages: the commit, and the
    /// end mark of the checkpoint that it ends.
    pub open spec fn commit_entries(self, tid: u64) -> Seq<LogEntryView<K, V>> {
        if self.ends_checkpoint(tid) {
            seq![
                LogEntryView::Transaction(Transaction::Commit(tid)),
                LogEntryView::Checkpoint(CheckpointView::End),
            ]
        } else {
            seq![LogEntryView::Transaction(Transaction::Commit(tid))]
        }
    }

    /// The state after the commit of `tid` was staged.
    pub open spec fn committed(self, tid: u64) -> Self {
        UndoLogView {
            mem_log: self.mem_log + self.commit_entries(tid),
            active_tids: without_tid(self.active_tids, tid),
            checkpoint_tids: if self.ends_checkpoint(tid) {
                None
            } else {
                self.checkpoint_tids
            },
            ..self
        }
    }

    /// The state after the begin mark of a checkpoint was staged.
    pub open spec fn checkpointed(self) -> Self {
        UndoLogView {
            mem_log: self.mem_log.push(
                LogEntryView::Checkpoint(CheckpointView::Begin(self.active_tids)),
            ),
            checkpoint_tids: Some(self.active_tids),
            ..self
        }
    }
}

/// The view of the transactions of a checkpoint in progress.
pub open spec fn tids_view(tids: Option<Vec<u64>>) -> Option<Seq<u64>> {
    match tids {
        Some(tids) => Some(tids@),
        None => None,
    }
}

/// A write ahead log that keeps the values from before each write, so that
/// the writes of a transaction that did not commit can be taken back.
///
/// The log does no input or output: what it hands back from an operation
/// are the bytes to append to the log file.
pub struct UndoLog<Data: LogData, Store: LogStore<Data>> {
    used: usize,
    mem_log: VecDeque<SingleLogEntry<Data>>,
    last_tid: u64,
    checkpoint_tids: Option<Vec<u64>>,
    active_tids: TidSet,
    store: Watched<Data, Store>,
}

impl<Data: LogData, Store: LogStore<Data>> View for UndoLog<Data, Store> {
    type V = UndoLogView<KeyView<Data>, ValueView<Data>>;

    closed spec fn view(&self) -> Self::V {
        UndoLogView {
            used: self.used as nat,
            mem_log: entry_views(self.mem_log@),
            last_tid: self.last_tid,
            checkpoint_tids: tids_view(self.checkpoint_tids),
            active_tids: self.active_tids@,
            calls: self.store.calls(),
        }
    }
}

impl<Data: LogData, Store: LogStore<Data>> UndoLog<Data, Store> {
    /// The log is in a state that its methods keep up.
    pub closed spec fn wf(&self) -> bool {
        &&& self.used < BLOCK_SIZE
        &&& self.active_tids.wf()
    }

    /// The entries staged since the last flush, oldest first.
    pub closed spec fn staged(&self) -> Seq<SingleLogEntry<Data>> {
        self.mem_log@
    }

    /// The staged entries are what the state shows of them, and a sound
    /// log has a sound state.
    pub proof fn lemma_view(&self)
        ensures
            self@.mem_log == entry_views(self.staged()),
            self.wf() ==> self@.used < BLOCK_SIZE && self@.active_tids.no_duplicates(),
    {
    }

    /// Opens the log on the bytes of its file, `log`, and recovers: has
    /// the store take back the writes of the transactions that did not
    /// finish, as `undo_plan` finds them, flushes the store, and stages an
    /// abort entry for each of them. Hands back the log and the bytes to
    /// append to the file. Fails where the store cannot flush; `recover`
    /// says what the store was asked to do in either case.
    pub fn new(log: &[u8], store: Store) -> (r: Result<(UndoLog<Data, Store>, Vec<u8>), std::io::Error>)
        ensures
            match r {
                Ok((undo_log, bytes)) => {
                    let scan = UndoScan::<KeyView<Data>, ValueView<Data>>::start().replay(
                        backward_entries::<Data>(
                            WalIteratorView::start(log@, ReadDirection::Backward),
                        ),
                    );
                    let used = log@.len() % (BLOCK_SIZE as nat);
                    &&& undo_log.wf()
                    &&& bytes@ == entries_bytes::<Data>(used, abort_entries(scan.unfinished))
                    &&& undo_log@ == UndoLogView::<KeyView<Data>, ValueView<Data>> {
                        used: used_after(used, bytes@.len()),
                        mem_log: Seq::empty(),
                        last_tid: scan.last_tid(),
                        checkpoint_tids: None,
                        active_tids: Seq::empty(),
                        calls: op_calls(scan.ops).push(StoreCall::Flush(true)),
                    }
                },
                Err(_) => true,
            },
    {
        let mut undo_log = UndoLog {
            used: log.len() % (BLOCK_SIZE as usize),
            mem_log: VecDeque::new(),
            last_tid: 0,
            checkpoint_tids: None,
            active_tids: TidSet::new(),
            store: Watched::new(store),
        };
        assert(undo_log@.mem_log =~= Seq::empty());
        let ghost ops = UndoScan::<KeyView<Data>, ValueView<Data>>::start().replay(
            backward_entries::<Data>(WalIteratorView::start(log@, ReadDirection::Backward)),
        ).ops;
        assert(undo_log@.calls + op_calls(ops) =~= op_calls(ops));
        let bytes = undo_log.recover(log)?;
        Ok((undo_log, bytes))
    }

    /// A copy of the entries staged since the last flush, oldest first.
    pub fn entries(&self) -> (entries: Vec<SingleLogEntry<Data>>)
        ensures
            entries@.len() == self.staged().len(),
            forall|i: int|
                0 <= i < entries@.len() ==> cloned::<SingleLogEntry<Data>>(
                    self.staged()[i],
                    #[trigger] entries@[i],
                ),
    {
        staged_entries(&self.mem_log)
    }

    /// The id of the transaction that started last.
    pub fn last_tid(&self) -> (tid: u64)
        ensures
            tid == self@.last_tid,
    {
        self.last_tid
    }

    /// Tells whether the transaction has started and not committed.
    pub fn is_active(&self, tid: u64) -> (r: bool)
        ensures
            r == self@.active_tids.contains(tid),
    {
        self.active_tids.contains(tid)
    }

    /// The store that the log protects.
    pub closed spec fn its_store(&self) -> Store {
        self.store.inner()
    }

    /// The store that the log protects.
    pub fn store(&self) -> (store: &Store)
        ensures
            *store == self.its_store(),
    {
        self.store.store()
    }

    /// Gives up the log for its store.
    pub fn into_store(self) -> (store: Store)
        ensures
            store == self.its_store(),
    {
        self.store.into_store()
    }

    /// The entry that takes back a write of the transaction to `key`,
    /// where `old` is what the store held under the key: a change entry
    /// with the old value, or an insert entry where there was none.
    pub fn undo_entry(tid: u64, key: Data::Key, old: Option<Data::Value>) -> (entry: SingleLogEntry<
        Data,
    >)
        ensures
            entry@ == undo_entry(tid, key@, held_view::<Data>(old)),
    {
        match old {
            Some(value) => SingleLogEntry::ChangeEntry(ChangeEntry { tid, key, value }),
            None => SingleLogEntry::InsertEntry(InsertEntry { tid, key }),
        }
    }

    /// Begins a checkpoint, unless one is in progress: stages a begin mark
    /// with the active transactions and hands back the bytes of all staged
    /// entries, to append to the log file. The end mark is staged by the
    /// commit of the last of these transactions.
    pub fn checkpoint(&mut self) -> (bytes: Vec<u8>)
        requires
            old(self).wf(),
        ensures
            final(self).wf(),
            old(self)@.checkpoint_tids is Some ==> final(self)@ == old(self)@ && bytes@.len() == 0,
            old(self)@.checkpoint_tids is None ==> bytes@ == entries_bytes::<Data>(
                old(self)@.used,
                old(self)@.checkpointed().mem_log,
            ) && final(self)@ == old(self)@.checkpointed().flushed(bytes@.len()),
    {
        if self.checkpoint_tids.is_none() {
            let transactions = self.active_tids.to_vec();
            let remembered = self.active_tids.to_vec();
            let entry = SingleLogEntry::Checkpoint(Checkpoint::Begin(transactions));
            self.stage(entry);
            let bytes = self.flush();
            self.checkpoint_tids = Some(remembered);
            bytes
        } else {
            Vec::new()
        }
    }

    /// Starts a transaction and returns its id, one more than the last.
    pub fn start(&mut self) -> (tid: u64)
        requires
            old(self).wf(),
            old(self)@.last_tid < u64::MAX,
        ensures
            final(self).wf(),
            tid == old(self)@.last_tid + 1,
            final(self)@ == old(self)@.started(),
    {
        self.last_tid += 1;
        let entry = SingleLogEntry::Transaction(Transaction::Start(self.last_tid));
        self.stage(entry);
        self.active_tids.insert(self.last_tid);
        self.last_tid
    }

    /// Writes `val` under `key` for an active transaction: asks the store
    /// for the value under the key, stages the entry that takes the write
    /// back, with a copy of the key, and has the store put `val` under
    /// `key`. Does nothing for a transaction that is not active.
    pub fn write(&mut self, tid: u64, key: Data::Key, val: Data::Value)
        requires
            old(self).wf(),
        ensures
            final(self).wf(),
            !old(self)@.active_tids.contains(tid) ==> final(self)@ == old(self)@,
            old(self)@.active_tids.contains(tid) ==> exists|
                logged: Data::Key,
                held: Option<ValueView<Data>>,
            |
                #![trigger cloned(key, logged), undo_entry(tid, logged@, held)]
                cloned(key, logged) && final(self)@ == old(self)@.asked(
                    StoreCall::Get(key@, held),
                ).asked(StoreCall::Update(key@, val@)).staged(undo_entry(tid, logged@, held)),
    {
        if self.active_tids.contains(tid) {
            let logged = key.clone();
            let ghost witness = logged;
            let old_value = self.store.get(&key);
            let ghost held: Option<ValueView<Data>> = held_view::<Data>(old_value);
            let entry = Self::undo_entry(tid, logged, old_value);
            let ghost written = (key@, val@);
            self.store.update(key, val);
            self.stage(entry);
            assert(cloned(key, witness) && self@ == old(self)@.asked(
                StoreCall::Get(written.0, held),
            ).asked(StoreCall::Update(written.0, written.1)).staged(
                undo_entry(tid, witness@, held),
            ));
        }
    }

    /// Commits an active transaction, in steps. While entries are staged,
    /// hands them back as `More`: they must be in the log file before the
    /// store is flushed. With nothing staged, flushes the store, stages
    /// the commit entry, and the end mark of a checkpoint whose last
    /// transaction this is, and hands them back as `Done`. Does nothing
    /// for a transaction that is not active. Fails, with the commit not
    /// staged, where and only where the store cannot flush.
    pub fn commit(&mut self, tid: u64) -> (r: Result<Progress, std::io::Error>)
        requires
            old(self).wf(),
        ensures
            final(self).wf(),
            !old(self)@.active_tids.contains(tid) ==> final(self)@ == old(self)@ && (r matches Ok(
                Progress::Done(bytes),
            ) && bytes@.len() == 0),
            old(self)@.active_tids.contains(tid) && old(self)@.mem_log.len() > 0 ==> (r matches Ok(
                Progress::More(bytes),
            ) && bytes@ == entries_bytes::<Data>(old(self)@.used, old(self)@.mem_log)
                && final(self)@ == old(self)@.flushed(bytes@.len())),
            old(self)@.active_tids.contains(tid) && old(self)@.mem_log.len() == 0 ==> match r {
                Ok(progress) => progress matches Progress::Done(bytes) && bytes@
                    == entries_bytes::<Data>(old(self)@.used, old(self)@.commit_entries(tid))
                    && final(self)@ == old(self)@.asked(StoreCall::Flush(true)).committed(
                    tid,
                ).flushed(bytes@.len()),
                Err(_) => final(self)@ == old(self)@.asked(StoreCall::Flush(false)),
            },
    {
        if !self.active_tids.contains(tid) {
            return Ok(Progress::Done(Vec::new()));
        }
        if self.mem_log.len() > 0 {
            return Ok(Progress::More(self.flush()));
        }
        let flushed = self.store.flush();
        self.finish_commit(tid, flushed)
    }

    /// The second half of a commit, after the store was asked to flush:
    /// passes the store's failure on, or stages the commit entry and the
    /// end mark that is due and hands them back.
    fn finish_commit(&mut self, tid: u64, flushed: Result<(), std::io::Error>) -> (r: Result<
        Progress,
        std::io::Error,
    >)
        requires
            old(self).wf(),
            old(self)@.mem_log.len() == 0,
        ensures
            final(self).wf(),
            match flushed {
                Ok(_) => r matches Ok(Progress::Done(bytes)) && bytes@ == entries_bytes::<Data>(
                    old(self)@.used,
                    old(self)@.commit_entries(tid),
                ) && final(self)@ == old(self)@.committed(tid).flushed(bytes@.len()),
                Err(e) => r matches Err(e2) && e2 == e && final(self)@ == old(self)@,
            },
    {
        match flushed {
            Err(e) => {
                return Err(e);
            },
            Ok(_) => {},
        }
        let entry = SingleLogEntry::Transaction(Transaction::Commit(tid));
        self.stage(entry);
        self.active_tids.remove(tid);
        assert(self@.mem_log =~= seq![LogEntryView::Transaction(Transaction::Commit(tid))]);
        // Add end checkpoint to log if all checkpoint transactions have finished.
        let tids = self.checkpoint_tids.take();
        assert(tids_view(tids) == old(self)@.checkpoint_tids);
        match tids {
            Some(tids) => {
                let mut transactions_completed = true;
                let mut i: usize = 0;
                while i < tids.len()
                    invariant
                        i <= tids@.len(),
                        self.active_tids@ == without_tid(old(self)@.active_tids, tid),
                        transactions_completed == none_among(
                            tids@.take(i as int),
                            without_tid(old(self)@.active_tids, tid),
                        ),
                    decreases tids@.len() - i,
                {
                    proof {
                        let active = without_tid(old(self)@.active_tids, tid);
                        let shorter = tids@.take(i as int);
                        let longer = tids@.take(i + 1);
                        assert(longer[i as int] == tids@[i as int]);
                        assert forall|j: int| 0 <= j < shorter.len() implies shorter[j]
                            == longer[j] by {}
                        if none_among(longer, active) {
                            assert forall|j: int| 0 <= j < shorter.len() implies !active.contains(
                                #[trigger] shorter[j],
                            ) by {
                                assert(longer[j] == shorter[j]);
                            }
                        }
                        if none_among(shorter, active) && !active.contains(tids@[i as int]) {
                            assert forall|j: int| 0 <= j < longer.len() implies !active.contains(
                                #[trigger] longer[j],
                            ) by {
                                if j < i {
                                    assert(shorter[j] == longer[j]);
                                }
                            }
                        }
                    }
                    if self.active_tids.contains(tids[i]) {
                        transactions_completed = false;
                    }
                    i += 1;
                }
                assert(tids@.take(i as int) =~= tids@);
                assert(transactions_completed == old(self)@.ends_checkpoint(tid));
                if transactions_completed {
                    let entry = SingleLogEntry::Checkpoint(Checkpoint::End);
                    self.stage(entry);
                    self.checkpoint_tids = None;
                } else {
                    self.checkpoint_tids = Some(tids);
                }
            },
            None => {
                assert(!old(self)@.ends_checkpoint(tid));
            },
        }
        assert(self@.mem_log =~= old(self)@.commit_entries(tid));
        assert(old(self)@.committed(tid).mem_log =~= old(self)@.commit_entries(tid));
        let bytes = self.flush();
        Ok(Progress::Done(bytes))
    }

    /// Stages an entry.
    fn stage(&mut self, entry: SingleLogEntry<Data>)
        ensures
            final(self)@ == (UndoLogView { mem_log: old(self)@.mem_log.push(entry@), ..old(self)@ }),
            final(self).staged() == old(self).staged().push(entry),
            final(self).wf() == old(self).wf(),
    {
        self.mem_log.push_back(entry);
        assert(entry_views(self.mem_log@) =~= entry_views(old(self).mem_log@).push(entry@));
    }

    /// Hands out the staged entries as the bytes to append to the log
    /// file, and forgets them.
    fn flush(&mut self) -> (bytes: Vec<u8>)
        requires
            old(self).wf(),
        ensures
            final(self).wf(),
            bytes@ == entries_bytes::<Data>(old(self)@.used, old(self)@.mem_log),
            final(self)@ == old(self)@.flushed(bytes@.len()),
    {
        let mut bytes: Vec<u8> = Vec::new();
        self.used = write_entries(&mut bytes, self.used, &self.mem_log);
        self.mem_log.clear();
        assert(bytes@ =~= entries_bytes::<Data>(old(self)@.used, old(self)@.mem_log));
        assert(entry_views(self.mem_log@) =~= Seq::empty());
        bytes
    }

    /// Has the store take back what did not finish, as `undo_plan` finds
    /// it, and asks the store to flush; then stages the aborts and sets
    /// the last id, unless the store could not flush, which is where and
    /// only where this fails.
    fn recover(&mut self, log: &[u8]) -> (r: Result<Vec<u8>, std::io::Error>)
        requires
            old(self).wf(),
            old(self)@.mem_log.len() == 0,
        ensures
            final(self).wf(),
            match r {
                Ok(bytes) => {
                    let scan = UndoScan::<KeyView<Data>, ValueView<Data>>::start().replay(
                        backward_entries::<Data>(
                            WalIteratorView::start(log@, ReadDirection::Backward),
                        ),
                    );
                    &&& bytes@ == entries_bytes::<Data>(
                        old(self)@.used,
                        abort_entries(scan.unfinished),
                    )
                    &&& final(self)@ == UndoLogView {
                        used: used_after(old(self)@.used, bytes@.len()),
                        mem_log: Seq::empty(),
                        last_tid: scan.last_tid(),
                        ..old(self)@.handed(scan.ops, true)
                    }
                },
                Err(_) => final(self)@ == old(self)@.handed(
                    UndoScan::<KeyView<Data>, ValueView<Data>>::start().replay(
                        backward_entries::<Data>(
                            WalIteratorView::start(log@, ReadDirection::Backward),
                        ),
                    ).ops,
                    false,
                ),
            },
    {
        let plan = undo_plan::<Data>(log);
        apply_ops(&mut self.store, plan.ops);
        // Flush undo store changes first before writing aborts to the log.
        let flushed = self.store.flush();
        self.finish_recover(plan.unfinished, plan.last_tid, flushed)
    }

    /// The end of a recovery, after the store was asked to flush: passes
    /// the store's failure on, or stages an abort entry for each of the
    /// transactions, sets the last id and hands back the bytes of the
    /// entries.
    fn finish_recover(
        &mut self,
        unfinished: Vec<u64>,
        last_tid: u64,
        flushed: Result<(), std::io::Error>,
    ) -> (r: Result<Vec<u8>, std::io::Error>)
        requires
            old(self).wf(),
            old(self)@.mem_log.len() == 0,
        ensures
            final(self).wf(),
            match flushed {
                Ok(_) => r matches Ok(bytes) && bytes@ == entries_bytes::<Data>(
                    old(self)@.used,
                    abort_entries(unfinished@),
                ) && final(self)@ == (UndoLogView {
                    used: used_after(old(self)@.used, bytes@.len()),
                    mem_log: Seq::empty(),
                    last_tid,
                    ..old(self)@
                }),
                Err(e) => r matches Err(e2) && e2 == e && final(self)@ == old(self)@,
            },
    {
        match flushed {
            Err(e) => {
                return Err(e);
            },
            Ok(_) => {},
        }
        let mut i: usize = 0;
        assert(self@.mem_log =~= abort_entries(unfinished@.take(0)));
        while i < unfinished.len()
            invariant
                i <= unfinished@.len(),
                self.wf(),
                self@ == (UndoLogView {
                    mem_log: abort_entries(unfinished@.take(i as int)),
                    ..old(self)@
                }),
            decreases unfinished@.len() - i,
        {
            self.stage(SingleLogEntry::Transaction(Transaction::Abort(unfinished[i])));
            assert(self@.mem_log =~= abort_entries(unfinished@.take(i + 1)));
            assert(self@ == (UndoLogView {
                mem_log: abort_entries(unfinished@.take(i + 1)),
                ..old(self)@
            }));
            i += 1;
        }
        assert(unfinished@.take(i as int) =~= unfinished@);
        // Set the last tid to the largest tid.
        self.last_tid = last_tid;
        let bytes = self.flush();
        Ok(bytes)
    }
}

/// What an undo recovery comes to.
#[derive(Debug, PartialEq)]
pub struct UndoPlan<Data: LogData> {
    /// What the store is to do to take back the writes of transactions
    /// that did not finish, in this order.
    pub ops: Vec<StoreOp<Data>>,
    /// The transactions whose writes are taken back, each of which gets
    /// an abort entry.
    pub unfinished: Vec<u64>,
    /// The largest id of a transaction that finished or is taken back, 0
    /// where there is none.
    pub last_tid: u64,
}

/// Reads the entries of the log backward, as far as a checkpoint lets the
/// recovery stop, and finds what did not finish and how to take it back.
pub fn undo_plan<Data: LogData>(log: &[u8]) -> (plan: UndoPlan<Data>)
    ensures
        ({
            let scan = UndoScan::<KeyView<Data>, ValueView<Data>>::start().replay(
                backward_entries::<Data>(WalIteratorView::start(log@, ReadDirection::Backward)),
            );
            &&& op_views(plan.ops@) == scan.ops
            &&& plan.unfinished@ == scan.unfinished
            &&& plan.unfinished@.no_duplicates()
            &&& plan.last_tid == scan.last_tid()
        }),
{
    let mut finished = TidSet::new();
    let mut unfinished = TidSet::new();
    let mut state = RecoverState::Fresh;
    let mut ops: Vec<StoreOp<Data>> = Vec::new();
    let mut iter = WalIterator::new(log, ReadDirection::Backward);
    proof {
        iter.lemma_view_wf();
        assert(op_views(ops@) =~= Seq::empty());
    }
    let ghost all = backward_entries::<Data>(iter@);
    let ghost first = UndoScan::<KeyView<Data>, ValueView<Data>>::start();
    let mut done = false;
    while !done
        invariant
            iter.wf(),
            iter@.wf(),
            finished.wf(),
            unfinished.wf(),
            state.wf(),
            ({
                let now = UndoScan {
                    finished: finished@,
                    unfinished: unfinished@,
                    state: state@,
                    ops: op_views(ops@),
                };
                first.replay(all) == (if done {
                    now
                } else {
                    now.replay(backward_entries::<Data>(iter@))
                })
            }),
        decreases
                (if done {
                    0
                } else {
                    1 + iter@.backward_measure()
                }),
    {
        let ghost now = UndoScan {
            finished: finished@,
            unfinished: unfinished@,
            state: state@,
            ops: op_views(ops@),
        };
        let ghost before = iter@;
        let ghost ops_before = ops@;
        match read_serializable_backwards::<SingleLogEntry<Data>>(&mut iter) {
            Err(_) => {
                done = true;
                proof {
                    iter.lemma_view_wf();
                    assert(backward_entries::<Data>(before) =~= Seq::empty());
                }
            },
            Ok(data) => {
                let ghost entry = data@;
                proof {
                    iter.lemma_view_wf();
                    assert(backward_entries::<Data>(before) =~= seq![entry]
                        + backward_entries::<Data>(iter@));
                    assert(backward_entries::<Data>(before).drop_first()
                        =~= backward_entries::<Data>(iter@));
                    assert(backward_entries::<Data>(before)[0] == entry);
                }
                match data {
                    SingleLogEntry::Transaction(Transaction::Commit(id)) => {
                        finished.insert(id);
                    },
                    SingleLogEntry::Transaction(Transaction::Abort(id)) => {
                        finished.insert(id);
                    },
                    SingleLogEntry::Transaction(Transaction::Start(id)) => {
                        state = match state {
                            RecoverState::Begin(mut transactions) => {
                                transactions.remove(id);
                                if transactions.is_empty() {
                                    done = true;
                                }
                                RecoverState::Begin(transactions)
                            },
                            other => other,
                        };
                    },
                    SingleLogEntry::InsertEntry(entry) => {
                        if !finished.contains(entry.tid) {
                            let op = StoreOp::Remove(entry.key);
                            proof {
                                assert(op_views(ops@.push(op)) =~= op_views(ops@).push(op@));
                            }
                            ops.push(op);
                            unfinished.insert(entry.tid);
                        }
                    },
                    SingleLogEntry::ChangeEntry(entry) => {
                        if !finished.contains(entry.tid) {
                            let op = StoreOp::Update(entry.key, entry.value);
                            proof {
                                assert(op_views(ops@.push(op)) =~= op_views(ops@).push(op@));
                            }
                            ops.push(op);
                            unfinished.insert(entry.tid);
                        }
                    },
                    SingleLogEntry::Checkpoint(Checkpoint::Begin(transactions)) => {
                        state = match state {
                            RecoverState::Begin(set) => RecoverState::Begin(set),
                            other => {
                                if transactions.len() == 0 {
                                    done = true;
                                    other
                                } else {
                                    RecoverState::Begin(
                                        TidSet::from_slice(transactions.as_slice()),
                                    )
                                }
                            },
                        };
                    },
                    SingleLogEntry::Checkpoint(Checkpoint::End) => {
                        state = match state {
                            RecoverState::Fresh => RecoverState::End,
                            other => other,
                        };
                    },
                }
                proof {
                    let after = UndoScan {
                        finished: finished@,
                        unfinished: unfinished@,
                        state: state@,
                        ops: op_views(ops@),
                    };
                    assert(after == now.step(entry));
                    assert(done == now.stops(entry));
                }
            },
        }
    }
    // Set the last tid to the largest tid.
    let max_unfinished = unfinished.max();
    let max_finished = finished.max();
    let last_tid = if max_unfinished > max_finished {
        max_unfinished
    } else {
        max_finished
    };
    UndoPlan { ops, unfinished: unfinished.to_vec(), last_tid }
}

/// The start entry of a transaction.
pub open spec fn start_entry<K, V>(tid: u64) -> LogEntryView<K, V> {
    LogEntryView::Transaction(Transaction::Start(tid))
}

/// The place of the start entry of the transaction among the entries,
/// or the number of entries where there is none.
pub open spec fn start_place<K, V>(entries: Seq<LogEntryView<K, V>>, tid: u64) -> int
    decreases entries.len(),
{
    if entries.len() == 0 {
        0
    } else if entries[0] == start_entry::<K, V>(tid) {
        0
    } else {
        1 + start_place(entries.drop_first(), tid)
    }
}

/// The place of a start entry lies among the entries or just behind.
pub proof fn lemma_start_place<K, V>(entries: Seq<LogEntryView<K, V>>, tid: u64)
    ensures
        0 <= start_place(entries, tid) <= entries.len(),
    decreases entries.len(),
{
    if entries.len() > 0 {
        lemma_start_place(entries.drop_first(), tid);
    }
}

/// A checkpoint bounds the recovery: once the recovery waits for the
/// starts of the transactions of a begin mark, and each of them has its
/// start entry among the first `n` entries to come, what it knows in the
/// end is what it knows after these `n` entries: it reads none behind
/// them.
pub proof fn lemma_checkpoint_bounds_undo<K, V>(
    scan: UndoScan<K, V>,
    tids: Seq<u64>,
    entries: Seq<LogEntryView<K, V>>,
    n: int,
)
    requires
        scan.state == RecoverStateView::Begin(tids),
        tids.len() > 0,
        0 <= n <= entries.len(),
        forall|i: int| 0 <= i < tids.len() ==> start_place(entries, #[trigger] tids[i]) < n,
    ensures
        scan.replay(entries) == scan.replay(entries.take(n)),
        scan.reads(entries) == scan.reads(entries.take(n)),
        scan.reads(entries) <= n,
    decreases entries.len(),
{
    assert(start_place(entries, tids[0]) < n);
    lemma_start_place(entries, tids[0]);
    let first = entries[0];
    let head = entries.take(n);
    assert(head[0] == first);
    if !scan.stops(first) {
        let next = scan.step(first);
        let rest = entries.drop_first();
        assert(head.drop_first() =~= rest.take(n - 1));
        let left = match first {
            LogEntryView::Transaction(Transaction::Start(id)) => without_tid(tids, id),
            _ => tids,
        };
        assert(next.state == RecoverStateView::Begin(left));
        assert(left.len() > 0);
        assert forall|i: int| 0 <= i < left.len() implies start_place(rest, #[trigger] left[i])
            < n - 1 by {
            let t = left[i];
            assert(left.contains(t));
            if let LogEntryView::Transaction(Transaction::Start(id)) = first {
                lemma_without_tid(tids, id);
                assert(without_tid(tids, id).contains(t));
                assert(t != id);
            }
            assert(tids.contains(t));
            let k = choose|k: int| 0 <= k < tids.len() && tids[k] == t;
            assert(start_place(entries, tids[k]) < n);
            assert(first != start_entry::<K, V>(t));
        }
        lemma_checkpoint_bounds_undo(next, left, rest, n - 1);
    }
}

/// A matched pair of checkpoint marks bounds the recovery: where the
/// recovery has read an end mark and no begin mark, the next entry is a
/// begin mark, and each of its transactions has its start entry among
/// the first `n` entries to come, the recovery reads none behind these
/// `n` entries.
pub proof fn lemma_checkpoint_pair_bounds_undo<K, V>(
    scan: UndoScan<K, V>,
    tids: Seq<u64>,
    entries: Seq<LogEntryView<K, V>>,
    n: int,
)
    requires
        scan.state == RecoverStateView::End,
        1 <= n <= entries.len(),
        entries[0] == LogEntryView::<K, V>::Checkpoint(CheckpointView::Begin(tids)),
        forall|i: int| 0 <= i < tids.len() ==> start_place(entries, #[trigger] tids[i]) < n,
    ensures
        scan.replay(entries) == scan.replay(entries.take(n)),
        scan.reads(entries) == scan.reads(entries.take(n)),
        scan.reads(entries) <= n,
{
    let head = entries.take(n);
    assert(head[0] == entries[0]);
    assert(head.drop_first() =~= entries.drop_first().take(n - 1));
    if tids.len() > 0 {
        let next = scan.step(entries[0]);
        let rest = entries.drop_first();
        let left = distinct(tids);
        lemma_distinct(tids);
        assert(head.drop_first() =~= rest.take(n - 1));
        assert forall|i: int| 0 <= i < left.len() implies start_place(rest, #[trigger] left[i])
            < n - 1 by {
            let t = left[i];
            assert(left.contains(t));
            assert(tids.contains(t));
            let k = choose|k: int| 0 <= k < tids.len() && tids[k] == t;
            assert(start_place(entries, tids[k]) < n);
        }
        lemma_checkpoint_bounds_undo(next, left, rest, n - 1);
    }
}

/// None of the entries is a checkpoint mark.
pub open spec fn no_marks<K, V>(entries: Seq<LogEntryView<K, V>>) -> bool {
    forall|i: int| 0 <= i < entries.len() ==> !((#[trigger] entries[i]) is Checkpoint)
}

/// The newest entries of a log that ends with a checkpoint, newest
/// first: entries without a checkpoint mark, the end mark, entries
/// without a checkpoint mark, and the begin mark with its transactions.
pub open spec fn checkpoint_head<K, V>(
    newest: Seq<LogEntryView<K, V>>,
    between: Seq<LogEntryView<K, V>>,
    tids: Seq<u64>,
) -> Seq<LogEntryView<K, V>> {
    newest + seq![LogEntryView::Checkpoint(CheckpointView::End)] + between + seq![
        LogEntryView::Checkpoint(CheckpointView::Begin(tids)),
    ]
}

/// A recovery that waits for no start reads on through entries without
/// a checkpoint mark, and what it has seen of checkpoints stays.
pub proof fn lemma_reads_on_undo<K, V>(
    scan: UndoScan<K, V>,
    first: Seq<LogEntryView<K, V>>,
    rest: Seq<LogEntryView<K, V>>,
)
    requires
        !(scan.state is Begin),
        no_marks(first),
    ensures
        scan.replay(first).state == scan.state,
        scan.reads(first) == first.len(),
        scan.replay(first + rest) == scan.replay(first).replay(rest),
        scan.reads(first + rest) == first.len() + scan.replay(first).reads(rest),
    decreases first.len(),
{
    if first.len() == 0 {
        assert(first + rest =~= rest);
    } else {
        let entry = first[0];
        let behind = first.drop_first();
        assert(!(entry is Checkpoint));
        assert(!scan.stops(entry));
        assert((first + rest)[0] == entry);
        assert((first + rest).drop_first() =~= behind + rest);
        assert(no_marks(behind)) by {
            assert forall|i: int| 0 <= i < behind.len() implies !((#[trigger] behind[i])
                is Checkpoint) by {
                assert(behind[i] == first[i + 1]);
            }
        }
        lemma_reads_on_undo(scan.step(entry), behind, rest);
    }
}

/// Checkpoint soundness, from the end of a log. The entries are taken
/// newest first: entries without a checkpoint mark, an end mark,
/// entries without a checkpoint mark, the begin mark, and the older
/// entries, among whose first `n` each transaction of the begin mark
/// has its start entry (`n` is 0 where it names none). The recovery
/// reads none of the entries behind these `n`: what it has the store
/// do, the transactions that it aborts and the last id are those of the
/// log without the entries behind them.
pub proof fn lemma_checkpoint_bounds_undo_log<K, V>(
    newest: Seq<LogEntryView<K, V>>,
    between: Seq<LogEntryView<K, V>>,
    tids: Seq<u64>,
    older: Seq<LogEntryView<K, V>>,
    n: int,
)
    requires
        no_marks(newest),
        no_marks(between),
        0 <= n <= older.len(),
        forall|i: int| 0 <= i < tids.len() ==> start_place(older, #[trigger] tids[i]) < n,
    ensures
        ({
            let head = checkpoint_head(newest, between, tids);
            let scan = UndoScan::<K, V>::start();
            &&& scan.reads(head + older) <= head.len() + n
            &&& scan.replay(head + older) == scan.replay(head + older.take(n))
        }),
{
    let head = checkpoint_head(newest, between, tids);
    let begin = seq![LogEntryView::<K, V>::Checkpoint(CheckpointView::Begin(tids))];
    let end = LogEntryView::<K, V>::Checkpoint(CheckpointView::End);
    let scan = UndoScan::<K, V>::start();
    let at_end = scan.replay(newest).step(end);
    let at_begin = at_end.replay(between);
    let marked = begin + older;
    assert(scan.replay(head + older) == at_begin.replay(marked) && scan.reads(head + older)
        == newest.len() + 1 + between.len() + at_begin.reads(marked) && at_begin.state
        == RecoverStateView::End) by {
        lemma_to_begin_undo(newest, between, tids, older);
    }
    assert(scan.replay(head + older.take(n)) == at_begin.replay(begin + older.take(n))) by {
        lemma_to_begin_undo(newest, between, tids, older.take(n));
    }
    assert(marked.take(n + 1) =~= begin + older.take(n));
    assert(marked.drop_first() =~= older);
    assert forall|i: int| 0 <= i < tids.len() implies start_place(marked, #[trigger] tids[i]) < n
        + 1 by {
        assert(start_place(older, tids[i]) < n);
    }
    lemma_checkpoint_pair_bounds_undo(at_begin, tids, marked, n + 1);
    assert(head.len() == newest.len() + 1 + between.len() + 1);
}

/// What a recovery has come to at the begin mark of the checkpoint with
/// which a log ends, going backward.
proof fn lemma_to_begin_undo<K, V>(
    newest: Seq<LogEntryView<K, V>>,
    between: Seq<LogEntryView<K, V>>,
    tids: Seq<u64>,
    older: Seq<LogEntryView<K, V>>,
)
    requires
        no_marks(newest),
        no_marks(between),
    ensures
        ({
            let all = checkpoint_head(newest, between, tids) + older;
            let end = LogEntryView::<K, V>::Checkpoint(CheckpointView::End);
            let marked = seq![LogEntryView::<K, V>::Checkpoint(CheckpointView::Begin(tids))]
                + older;
            let scan = UndoScan::<K, V>::start();
            let at_begin = scan.replay(newest).step(end).replay(between);
            &&& at_begin.state == RecoverStateView::End
            &&& scan.replay(all) == at_begin.replay(marked)
            &&& scan.reads(all) == newest.len() + 1 + between.len() + at_begin.reads(marked)
        }),
{
    let all = checkpoint_head(newest, between, tids) + older;
    let end = LogEntryView::<K, V>::Checkpoint(CheckpointView::End);
    let marked = seq![LogEntryView::<K, V>::Checkpoint(CheckpointView::Begin(tids))] + older;
    let scan = UndoScan::<K, V>::start();
    let ended = seq![end] + (between + marked);
    assert(all =~= newest + ended);
    lemma_reads_on_undo(scan, newest, ended);
    let at_newest = scan.replay(newest);
    assert(ended[0] == end);
    assert(ended.drop_first() =~= between + marked);
    assert(!at_newest.stops(end));
    lemma_reads_on_undo(at_newest.step(end), between, marked);
}

/// The mappings of a store that behaves as a map after the writes, done
/// in their order.
pub open spec fn written<K, V>(store: Map<K, V>, writes: Seq<(K, V)>) -> Map<K, V>
    decreases writes.len(),
{
    if writes.len() == 0 {
        store
    } else {
        written(store, writes.drop_last()).insert(writes.last().0, writes.last().1)
    }
}

/// What a store that behaves as a map holds under a key.
pub open spec fn held<K, V>(store: Map<K, V>, key: K) -> Option<V> {
    if store.contains_key(key) {
        Some(store[key])
    } else {
        None
    }
}

/// The entries that an undo log stages for the writes of a transaction
/// to a store that behaves as a map, oldest first: for each write, the
/// entry that takes it back.
pub open spec fn logged_writes<K, V>(tid: u64, store: Map<K, V>, writes: Seq<(K, V)>) -> Seq<
    LogEntryView<K, V>,
>
    decreases writes.len(),
{
    if writes.len() == 0 {
        Seq::empty()
    } else {
        logged_writes(tid, store, writes.drop_last()).push(
            undo_entry(
                tid,
                writes.last().0,
                held(written(store, writes.drop_last()), writes.last().0),
            ),
        )
    }
}

/// Every insert and change among the entries, which come newest first,
/// is of a transaction in `finished` or with a commit or abort entry
/// before it.
pub open spec fn settled<K, V>(entries: Seq<LogEntryView<K, V>>, finished: Seq<u64>) -> bool {
    forall|i: int|
        0 <= i < entries.len() ==> match #[trigger] entries[i] {
            LogEntryView::InsertEntry(entry) => finished.contains(entry.tid) || exists|j: int|
                0 <= j < i && finishes(entries[j], entry.tid),
            LogEntryView::ChangeEntry(entry) => finished.contains(entry.tid) || exists|j: int|
                0 <= j < i && finishes(entries[j], entry.tid),
            _ => true,
        }
}

/// The entry is the commit or the abort of the transaction.
pub open spec fn finishes<K, V>(entry: LogEntryView<K, V>, tid: u64) -> bool {
    entry == LogEntryView::<K, V>::Transaction(Transaction::Commit(tid)) || entry
        == LogEntryView::<K, V>::Transaction(Transaction::Abort(tid))
}

/// A recovery takes nothing back among entries of transactions that
/// finished.
pub proof fn lemma_settled_entries<K, V>(scan: UndoScan<K, V>, entries: Seq<LogEntryView<K, V>>)
    requires
        settled(entries, scan.finished),
    ensures
        scan.replay(entries).ops == scan.ops,
        scan.replay(entries).unfinished == scan.unfinished,
        forall|t: u64| scan.finished.contains(t) ==> scan.replay(entries).finished.contains(t),
    decreases entries.len(),
{
    if entries.len() > 0 {
        let first = entries[0];
        let next = scan.step(first);
        let rest = entries.drop_first();
        match first {
            LogEntryView::Transaction(Transaction::Commit(id)) => {
                lemma_with_tid(scan.finished, id);
            },
            LogEntryView::Transaction(Transaction::Abort(id)) => {
                lemma_with_tid(scan.finished, id);
            },
            _ => {},
        }
        assert(next.ops == scan.ops && next.unfinished == scan.unfinished);
        if !scan.stops(first) {
            assert forall|i: int| 0 <= i < rest.len() implies match #[trigger] rest[i] {
                LogEntryView::InsertEntry(entry) => next.finished.contains(entry.tid)
                    || exists|j: int| 0 <= j < i && finishes(rest[j], entry.tid),
                LogEntryView::ChangeEntry(entry) => next.finished.contains(entry.tid)
                    || exists|j: int| 0 <= j < i && finishes(rest[j], entry.tid),
                _ => true,
            } by {
                assert(rest[i] == entries[i + 1]);
                let tid = match rest[i] {
                    LogEntryView::InsertEntry(entry) => entry.tid,
                    LogEntryView::ChangeEntry(entry) => entry.tid,
                    _ => 0,
                };
                if (rest[i] is InsertEntry || rest[i] is ChangeEntry) && !scan.finished.contains(
                    tid,
                ) {
                    let j = choose|j: int| 0 <= j < i + 1 && finishes(entries[j], tid);
                    if j == 0 {
                        assert(next.finished.contains(tid));
                    } else {
                        assert(rest[j - 1] == entries[j]);
                    }
                }
            }
            lemma_settled_entries(next, rest);
        }
    }
}

/// Undoing restores: where a transaction has written to a store that
/// behaves as a map, and the entries staged for its writes are the
/// newest of the log, a recovery that finds no commit or abort of the
/// transaction, and before its writes only entries of transactions that
/// finished, has the store do what brings back the mappings from before
/// the writes. The transaction is the one that gets an abort entry, and
/// the last id is at least its id.
pub proof fn lemma_undo_recovery<K, V>(
    tid: u64,
    before: Map<K, V>,
    writes: Seq<(K, V)>,
    older: Seq<LogEntryView<K, V>>,
)
    requires
        writes.len() > 0,
        settled(older, Seq::empty()),
    ensures
        ({
            let scan = UndoScan::<K, V>::start().replay(
                logged_writes(tid, before, writes).reverse() + older,
            );
            &&& scan.unfinished == seq![tid]
            &&& abort_entries::<K, V>(scan.unfinished) == seq![
                LogEntryView::<K, V>::Transaction(Transaction::Abort(tid)),
            ]
            &&& scan.last_tid() >= tid
            &&& applied(written(before, writes), scan.ops) == before
        }),
{
    let first = UndoScan::<K, V>::start();
    lemma_undo_writes(first, tid, before, writes, older);
    let middle = UndoScan::<K, V> { unfinished: seq![tid], ops: undo_ops(tid, before, writes), ..first };
    assert(first.unfinished =~= Seq::empty());
    assert(with_tid(first.unfinished, tid) =~= seq![tid]);
    lemma_settled_entries(middle, older);
    let scan = middle.replay(older);
    lemma_undo_ops_restore(tid, before, writes);
    assert(abort_entries::<K, V>(scan.unfinished) =~= seq![
        LogEntryView::<K, V>::Transaction(Transaction::Abort(tid)),
    ]);
    assert(seq![tid].drop_last() =~= Seq::<u64>::empty());
    assert(max_tid(seq![tid]) == tid) by {
        reveal_with_fuel(max_tid, 2);
    }
}

/// What the store is to do to take back the writes of a transaction to
/// a store that behaves as a map, the newest write first.
pub open spec fn undo_ops<K, V>(tid: u64, store: Map<K, V>, writes: Seq<(K, V)>) -> Seq<
    StoreOpView<K, V>,
>
    decreases writes.len(),
{
    if writes.len() == 0 {
        Seq::empty()
    } else {
        seq![
            match held(written(store, writes.drop_last()), writes.last().0) {
                Some(value) => StoreOpView::Update(writes.last().0, value),
                None => StoreOpView::Remove(writes.last().0),
            },
        ] + undo_ops(tid, store, writes.drop_last())
    }
}

/// A recovery that has finished no transaction takes back the writes of
/// a transaction, the newest first, and goes on to the entries before.
proof fn lemma_undo_writes<K, V>(
    scan: UndoScan<K, V>,
    tid: u64,
    before: Map<K, V>,
    writes: Seq<(K, V)>,
    older: Seq<LogEntryView<K, V>>,
)
    requires
        scan.finished.len() == 0,
    ensures
        scan.replay(logged_writes(tid, before, writes).reverse() + older) == (UndoScan {
            unfinished: if writes.len() > 0 {
                with_tid(scan.unfinished, tid)
            } else {
                scan.unfinished
            },
            ops: scan.ops + undo_ops(tid, before, writes),
            ..scan
        }).replay(older),
    decreases writes.len(),
{
    let logged = logged_writes(tid, before, writes);
    let entries = logged.reverse() + older;
    if writes.len() == 0 {
        assert(entries =~= older);
        assert(scan.ops + undo_ops(tid, before, writes) =~= scan.ops);
    } else {
        let front = writes.drop_last();
        let first = undo_entry(tid, writes.last().0, held(written(before, front), writes.last().0));
        assert(entries[0] == logged[logged.len() - 1]);
        assert(entries[0] == first);
        assert(entries.drop_first() =~= logged_writes(tid, before, front).reverse() + older);
        assert(!scan.finished.contains(tid));
        let next = scan.step(first);
        assert(!scan.stops(first));
        lemma_undo_writes(next, tid, before, front, older);
        lemma_with_tid(scan.unfinished, tid);
        assert(with_tid(with_tid(scan.unfinished, tid), tid) == with_tid(scan.unfinished, tid));
        assert(next.ops + undo_ops(tid, before, front) =~= scan.ops + undo_ops(
            tid,
            before,
            writes,
        ));
    }
}

/// Doing operations one after the other is doing the first, then the
/// rest.
pub proof fn lemma_applied_prepend<K, V>(
    store: Map<K, V>,
    first: StoreOpView<K, V>,
    rest: Seq<StoreOpView<K, V>>,
)
    ensures
        applied(store, seq![first] + rest) == applied(applied(store, seq![first]), rest),
    decreases rest.len(),
{
    let all = seq![first] + rest;
    if rest.len() == 0 {
        assert(all =~= seq![first]);
    } else {
        assert(all.drop_last() =~= seq![first] + rest.drop_last());
        assert(all.last() == rest.last());
        lemma_applied_prepend(store, first, rest.drop_last());
    }
}

/// Taking back the writes of a transaction, the newest first, brings a
/// store that behaves as a map back to where it was.
proof fn lemma_undo_ops_restore<K, V>(tid: u64, before: Map<K, V>, writes: Seq<(K, V)>)
    ensures
        applied(written(before, writes), undo_ops(tid, before, writes)) == before,
    decreases writes.len(),
{
    let ops = undo_ops(tid, before, writes);
    if writes.len() == 0 {
        assert(ops =~= Seq::empty());
    } else {
        let front = writes.drop_last();
        let middle = written(before, front);
        let key = writes.last().0;
        let first = ops[0];
        assert(ops =~= seq![first] + undo_ops(tid, before, front));
        lemma_applied_prepend(written(before, writes), first, undo_ops(tid, before, front));
        assert(seq![first].drop_last() =~= Seq::<StoreOpView<K, V>>::empty());
        assert(applied(written(before, writes), seq![first]) =~= middle) by {
            reveal_with_fuel(applied, 2);
        }
        lemma_undo_ops_restore(tid, before, front);
    }
}

/// Undo recovery: where the file of a log holds, as its newest entries,
/// what a transaction staged for its writes to a store that behaves as
/// a map, with no commit or abort of the transaction behind them, and
/// before them only entries of transactions that finished, the recovery
/// that opens the log on this file has the store do what brings back
/// the mappings from before the writes; the transaction is the one that
/// gets an abort entry, and the last id is at least its id.
pub proof fn lemma_undo_recovery_of_log<Data: LogData>(
    tid: u64,
    before: Map<KeyView<Data>, ValueView<Data>>,
    writes: Seq<(KeyView<Data>, ValueView<Data>)>,
    earlier: Seq<LogEntryView<KeyView<Data>, ValueView<Data>>>,
)
    requires
        writes.len() > 0,
        settled(earlier.reverse(), Seq::empty()),
        all_encodable::<Data>(earlier + logged_writes(tid, before, writes)),
        log_file::<Data>(earlier + logged_writes(tid, before, writes)).len() <= u64::MAX,
    ensures
        ({
            let log = log_file::<Data>(earlier + logged_writes(tid, before, writes));
            let scan = UndoScan::<KeyView<Data>, ValueView<Data>>::start().replay(
                backward_entries::<Data>(WalIteratorView::start(log, ReadDirection::Backward)),
            );
            &&& scan.unfinished == seq![tid]
            &&& abort_entries::<KeyView<Data>, ValueView<Data>>(scan.unfinished) == seq![
                LogEntryView::<KeyView<Data>, ValueView<Data>>::Transaction(
                    Transaction::Abort(tid),
                ),
            ]
            &&& scan.last_tid() >= tid
            &&& applied(written(before, writes), scan.ops) == before
        }),
{
    let logged = logged_writes(tid, before, writes);
    let entries = earlier + logged;
    lemma_log_round_trip::<Data>(entries);
    assert(entries.reverse() =~= logged.reverse() + earlier.reverse());
    lemma_undo_recovery(tid, before, writes, earlier.reverse());
}

/// The entry is an insert or a change of the transaction.
pub open spec fn writes_for<K, V>(entry: LogEntryView<K, V>, tid: u64) -> bool {
    match entry {
        LogEntryView::InsertEntry(entry) => entry.tid == tid,
        LogEntryView::ChangeEntry(entry) => entry.tid == tid,
        _ => false,
    }
}

/// The entry is a commit, an abort, an insert or a change of the
/// transaction.
pub open spec fn names<K, V>(entry: LogEntryView<K, V>, tid: u64) -> bool {
    writes_for(entry, tid) || finishes(entry, tid)
}

/// Among the first `n` of the entries, which come newest first, there
/// is an insert or a change of the transaction with no commit or abort
/// of it before: the transaction wrote and did not finish afterwards.
pub open spec fn left_open<K, V>(entries: Seq<LogEntryView<K, V>>, n: int, tid: u64) -> bool {
    exists|i: int|
        0 <= i < n && i < entries.len() && writes_for(#[trigger] entries[i], tid) && forall|j: int|
            0 <= j < i ==> !finishes(#[trigger] entries[j], tid)
}

/// Among the first `n` of the entries there is a commit or an abort of
/// the transaction.
pub open spec fn finished_among<K, V>(entries: Seq<LogEntryView<K, V>>, n: int, tid: u64) -> bool {
    exists|i: int| 0 <= i < n && i < entries.len() && finishes(#[trigger] entries[i], tid)
}

/// Whether a transaction wrote and did not finish, or finished, among
/// the first entries, told by the first entry and the entries behind it.
proof fn lemma_first_entry<K, V>(entries: Seq<LogEntryView<K, V>>, n: int, tid: u64)
    requires
        entries.len() > 0,
        n >= 1,
    ensures
        left_open(entries, n, tid) <==> (writes_for(entries[0], tid) || (!finishes(entries[0], tid)
            && left_open(entries.drop_first(), n - 1, tid))),
        finished_among(entries, n, tid) <==> (finishes(entries[0], tid) || finished_among(
            entries.drop_first(),
            n - 1,
            tid,
        )),
{
    let rest = entries.drop_first();
    if left_open(entries, n, tid) && !writes_for(entries[0], tid) {
        let i = choose|i: int|
            0 <= i < n && i < entries.len() && writes_for(#[trigger] entries[i], tid) && forall|
                j: int,
            |
                0 <= j < i ==> !finishes(#[trigger] entries[j], tid);
        assert(i > 0);
        assert(!finishes(entries[0], tid));
        assert forall|j: int| 0 <= j < i - 1 implies !finishes(#[trigger] rest[j], tid) by {
            assert(rest[j] == entries[j + 1]);
        }
        assert(writes_for(rest[i - 1], tid));
    }
    if writes_for(entries[0], tid) {
        assert(left_open(entries, n, tid));
    }
    if !finishes(entries[0], tid) && left_open(rest, n - 1, tid) {
        let i = choose|i: int|
            0 <= i < n - 1 && i < rest.len() && writes_for(#[trigger] rest[i], tid) && forall|
                j: int,
            |
                0 <= j < i ==> !finishes(#[trigger] rest[j], tid);
        assert forall|j: int| 0 <= j < i + 1 implies !finishes(#[trigger] entries[j], tid) by {
            if j > 0 {
                assert(rest[j - 1] == entries[j]);
            }
        }
        assert(rest[i] == entries[i + 1]);
        assert(writes_for(entries[i + 1], tid));
    }
    if finished_among(entries, n, tid) && !finishes(entries[0], tid) {
        let i = choose|i: int|
            0 <= i < n && i < entries.len() && finishes(#[trigger] entries[i], tid);
        assert(finishes(rest[i - 1], tid));
    }
    if finished_among(rest, n - 1, tid) {
        let i = choose|i: int|
            0 <= i < n - 1 && i < rest.len() && finishes(#[trigger] rest[i], tid);
        assert(rest[i] == entries[i + 1]);
        assert(finishes(entries[i + 1], tid));
    }
}

/// The transactions that a recovery has noted in the end: as not
/// finished, besides those that it had noted, each transaction that it
/// had not seen to finish and that wrote and did not finish afterwards
/// among the entries that it reads; as finished, besides those that it
/// had noted, each with a commit or an abort among these entries. It
/// notes none twice.
pub proof fn lemma_scan_ids<K, V>(scan: UndoScan<K, V>, entries: Seq<LogEntryView<K, V>>)
    requires
        scan.unfinished.no_duplicates(),
    ensures
        ({
            let end = scan.replay(entries);
            let n = scan.reads(entries) as int;
            &&& n <= entries.len()
            &&& end.unfinished.no_duplicates()
            &&& forall|t: u64| #[trigger]
                end.unfinished.contains(t) <==> (scan.unfinished.contains(t) || (
                !scan.finished.contains(t) && left_open(entries, n, t)))
            &&& forall|t: u64| #[trigger]
                end.finished.contains(t) <==> (scan.finished.contains(t) || finished_among(
                    entries,
                    n,
                    t,
                ))
        }),
    decreases entries.len(),
{
    if entries.len() > 0 {
        let first = entries[0];
        let next = scan.step(first);
        let rest = entries.drop_first();
        let end = scan.replay(entries);
        let n = scan.reads(entries) as int;
        match first {
            LogEntryView::Transaction(Transaction::Commit(id)) => {
                lemma_with_tid(scan.finished, id);
            },
            LogEntryView::Transaction(Transaction::Abort(id)) => {
                lemma_with_tid(scan.finished, id);
            },
            LogEntryView::InsertEntry(entry) => {
                lemma_with_tid(scan.unfinished, entry.tid);
            },
            LogEntryView::ChangeEntry(entry) => {
                lemma_with_tid(scan.unfinished, entry.tid);
            },
            _ => {},
        }
        if !scan.stops(first) {
            lemma_scan_ids(next, rest);
        }
        assert forall|t: u64| #[trigger]
            end.unfinished.contains(t) <==> (scan.unfinished.contains(t) || (
            !scan.finished.contains(t) && left_open(entries, n, t))) by {
            lemma_first_entry(entries, n, t);
            assert(end.unfinished.contains(t) <==> (next.unfinished.contains(t) || (
            !next.finished.contains(t) && left_open(rest, n - 1, t))));
        }
        assert forall|t: u64| #[trigger]
            end.finished.contains(t) <==> (scan.finished.contains(t) || finished_among(
                entries,
                n,
                t,
            )) by {
            lemma_first_entry(entries, n, t);
            assert(end.finished.contains(t) <==> (next.finished.contains(t) || finished_among(
                rest,
                n - 1,
                t,
            )));
        }
    }
}

/// Undo recovery, for every log: of the entries that the recovery
/// reads, newest first, the transactions that get an abort entry are
/// those with an insert or a change and no commit or abort behind it in
/// the log, each once; a transaction whose every write has a commit or
/// an abort behind it gets none. The last id is the largest id among
/// the commits, aborts, inserts and changes read, and 0 where there is
/// none.
pub proof fn lemma_undo_recovery_ids<K, V>(entries: Seq<LogEntryView<K, V>>)
    ensures
        ({
            let scan = UndoScan::<K, V>::start().replay(entries);
            let n = UndoScan::<K, V>::start().reads(entries) as int;
            let aborts = abort_entries::<K, V>(scan.unfinished);
            &&& n <= entries.len()
            &&& scan.unfinished.no_duplicates()
            &&& forall|t: u64| #[trigger] scan.unfinished.contains(t) <==> left_open(entries, n, t)
            &&& aborts.len() == scan.unfinished.len()
            &&& forall|i: int|
                0 <= i < aborts.len() ==> #[trigger] aborts[i] == LogEntryView::<
                    K,
                    V,
                >::Transaction(Transaction::Abort(scan.unfinished[i]))
            &&& forall|i: int, t: u64|
                0 <= i < n && #[trigger] names(entries[i], t) ==> t <= scan.last_tid()
            &&& scan.last_tid() == 0 || exists|i: int|
                0 <= i < n && #[trigger] names(entries[i], scan.last_tid())
        }),
{
    let first = UndoScan::<K, V>::start();
    let scan = first.replay(entries);
    let n = first.reads(entries) as int;
    lemma_scan_ids(first, entries);
    lemma_max_tid(scan.unfinished);
    lemma_max_tid(scan.finished);
    assert forall|i: int, t: u64| 0 <= i < n && #[trigger] names(entries[i], t) implies t
        <= scan.last_tid() by {
        if finishes(entries[i], t) {
            assert(finished_among(entries, n, t));
            assert(scan.finished.contains(t));
        } else if left_open(entries, n, t) {
            assert(scan.unfinished.contains(t));
        } else {
            let j = choose|j: int| 0 <= j < i && finishes(#[trigger] entries[j], t);
            assert(finished_among(entries, n, t));
            assert(scan.finished.contains(t));
        }
    }
    assert forall|t: u64| #[trigger] scan.unfinished.contains(t) <==> left_open(
        entries,
        n,
        t,
    ) by {
        assert(!first.unfinished.contains(t));
        assert(!first.finished.contains(t));
    }
    let last = scan.last_tid();
    if last != 0 {
        if max_tid(scan.unfinished) > max_tid(scan.finished) {
            assert(scan.unfinished.len() > 0);
            assert(scan.unfinished.contains(last));
            assert(left_open(entries, n, last));
            let i = choose|i: int|
                0 <= i < n && i < entries.len() && writes_for(#[trigger] entries[i], last)
                    && forall|j: int| 0 <= j < i ==> !finishes(#[trigger] entries[j], last);
            assert(names(entries[i], last));
        } else {
            assert(scan.finished.len() > 0);
            assert(scan.finished.contains(last));
            assert(finished_among(entries, n, last));
            let i = choose|i: int|
                0 <= i < n && i < entries.len() && finishes(#[trigger] entries[i], last);
            assert(names(entries[i], last));
        }
    }
}

} // verus!
