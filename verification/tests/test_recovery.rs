use std::collections::{HashMap, VecDeque};
use std::io;

use disk_utils::wal::entries::{
    ChangeEntry, Checkpoint, InsertEntry, SingleLogEntry, Transaction,
};
use disk_utils::wal::redo_log::{redo_plan, RedoLog};
use disk_utils::wal::undo_log::{undo_plan, UndoLog};
use disk_utils::wal::calls::Watched;
use disk_utils::wal::{write_entries, LogData, LogStore, StoreOp};

#[derive(Clone, PartialEq, Debug)]
struct MyLogData;

impl LogData for MyLogData {
    type Key = i32;
    type Value = String;
}

/// A store that keeps what it is asked to do.
#[derive(Default)]
struct MyStore {
    map: HashMap<i32, String>,
    calls: Vec<String>,
}

impl LogStore<MyLogData> for MyStore {
    fn get(&self, key: &i32) -> Option<String> {
        self.map.get(key).cloned()
    }

    fn remove(&mut self, key: &i32) {
        self.calls.push(format!("remove {}", key));
        self.map.remove(key);
    }

    fn update(&mut self, key: i32, val: String) {
        self.calls.push(format!("update {} {}", key, val));
        self.map.insert(key, val);
    }

    fn flush(&mut self) -> io::Result<()> {
        self.calls.push("flush".to_string());
        Ok(())
    }

    fn flush_change(&mut self, key: i32, val: String) -> io::Result<()> {
        self.calls.push(format!("flush_change {} {}", key, val));
        Ok(())
    }
}

type Entry = SingleLogEntry<MyLogData>;

fn start(tid: u64) -> Entry {
    SingleLogEntry::Transaction(Transaction::Start(tid))
}

fn commit(tid: u64) -> Entry {
    SingleLogEntry::Transaction(Transaction::Commit(tid))
}

fn abort(tid: u64) -> Entry {
    SingleLogEntry::Transaction(Transaction::Abort(tid))
}

fn insert(tid: u64, key: i32) -> Entry {
    SingleLogEntry::InsertEntry(InsertEntry { tid, key })
}

fn change(tid: u64, key: i32, value: &str) -> Entry {
    SingleLogEntry::ChangeEntry(ChangeEntry { tid, key, value: value.to_string() })
}

fn begin(tids: &[u64]) -> Entry {
    SingleLogEntry::Checkpoint(Checkpoint::Begin(tids.to_vec()))
}

fn end() -> Entry {
    SingleLogEntry::Checkpoint(Checkpoint::End)
}

fn update(key: i32, value: &str) -> StoreOp<MyLogData> {
    StoreOp::Update(key, value.to_string())
}

fn log_of(entries: Vec<Entry>) -> Vec<u8> {
    let mut log = Vec::new();
    write_entries(&mut log, 0, &VecDeque::from(entries));
    log
}

#[test]
fn test_undo_plan_takes_back_the_unfinished() {
    let log = log_of(vec![
        start(1),
        insert(1, 20),
        commit(1),
        start(2),
        change(2, 20, "Hello"),
        insert(2, 30),
    ]);
    let plan = undo_plan::<MyLogData>(&log);
    assert_eq!(plan.ops, vec![StoreOp::Remove(30), update(20, "Hello")]);
    assert_eq!(plan.unfinished, vec![2]);
    assert_eq!(plan.last_tid, 2);

    let plan = undo_plan::<MyLogData>(&[]);
    assert_eq!(plan.ops, vec![]);
    assert_eq!(plan.unfinished, Vec::<u64>::new());
    assert_eq!(plan.last_tid, 0);
}

#[test]
fn test_undo_plan_restores_what_was_there() {
    // A store holds 1 -> "a". A transaction writes 1 -> "b", 2 -> "c",
    // 1 -> "d" and does not commit.
    let mut store = MyStore::default();
    store.map.insert(1, "a".to_string());
    let before = store.map.clone();
    let (mut undo_log, bytes) = UndoLog::<MyLogData, MyStore>::new(&[], store).unwrap();
    assert!(bytes.is_empty());
    let tid = undo_log.start();
    undo_log.write(tid, 1, "b".to_string());
    undo_log.write(tid, 2, "c".to_string());
    undo_log.write(tid, 1, "d".to_string());
    assert_eq!(
        undo_log.entries(),
        vec![start(1), change(1, 1, "a"), insert(1, 2), change(1, 1, "b")]
    );
    let log = log_of(undo_log.entries());
    let mut store = undo_log.into_store();
    assert_eq!(store.map.get(&1), Some(&"d".to_string()));
    store.calls.clear();

    let (undo_log, bytes) = UndoLog::<MyLogData, MyStore>::new(&log, store).unwrap();
    assert_eq!(bytes, log_of_at(log.len(), vec![abort(1)]));
    assert_eq!(undo_log.last_tid(), 1);
    assert_eq!(
        undo_log.store().calls,
        vec!["update 1 b", "remove 2", "update 1 a", "flush"]
    );
    assert_eq!(undo_log.into_store().map, before);
}

fn log_of_at(used: usize, entries: Vec<Entry>) -> Vec<u8> {
    let mut out = Vec::new();
    write_entries(&mut out, used % 32768, &VecDeque::from(entries));
    out
}

#[test]
fn test_undo_plan_stops_at_a_checkpoint() {
    // The third transaction began after the checkpoint that the second
    // had to finish for; the first is older and is not read.
    let log = log_of(vec![
        start(1),
        insert(1, 10),
        start(2),
        begin(&[2]),
        insert(2, 20),
        commit(2),
        end(),
        start(3),
        insert(3, 30),
    ]);
    let plan = undo_plan::<MyLogData>(&log);
    assert_eq!(plan.ops, vec![StoreOp::Remove(30)]);
    assert_eq!(plan.unfinished, vec![3]);
    assert_eq!(plan.last_tid, 3);

    // A begin mark without transactions ends the reading at once.
    let log = log_of(vec![start(1), insert(1, 10), begin(&[]), start(2), insert(2, 20)]);
    let plan = undo_plan::<MyLogData>(&log);
    assert_eq!(plan.ops, vec![StoreOp::Remove(20)]);
    assert_eq!(plan.unfinished, vec![2]);

    // A begin mark alone has the reading go on to the starts it names.
    let log = log_of(vec![
        start(1),
        insert(1, 10),
        start(2),
        insert(2, 20),
        begin(&[2]),
        start(3),
    ]);
    let plan = undo_plan::<MyLogData>(&log);
    assert_eq!(plan.ops, vec![StoreOp::Remove(20)]);
    assert_eq!(plan.unfinished, vec![2]);
    assert_eq!(plan.last_tid, 2);
}

#[test]
fn test_undo_plan_aborts_each_unfinished_transaction_once() {
    let log = log_of(vec![
        start(1),
        insert(1, 10),
        commit(1),
        start(2),
        insert(2, 20),
        start(3),
        change(3, 10, "x"),
        change(2, 20, "y"),
        abort(3),
        start(4),
        insert(4, 40),
        start(5),
        insert(2, 21),
    ]);
    let plan = undo_plan::<MyLogData>(&log);
    // The second and the fourth transaction wrote and did not finish;
    // the fifth has written nothing.
    assert_eq!(plan.unfinished, vec![2, 4]);
    assert_eq!(
        plan.ops,
        vec![
            StoreOp::Remove(21),
            StoreOp::Remove(40),
            update(20, "y"),
            StoreOp::Remove(20),
        ]
    );
    // The largest id among the commits, aborts, inserts and changes.
    assert_eq!(plan.last_tid, 4);

    let (undo_log, bytes) = UndoLog::<MyLogData, MyStore>::new(&log, MyStore::default()).unwrap();
    assert_eq!(bytes, log_of_at(log.len(), vec![abort(2), abort(4)]));
    assert_eq!(undo_log.last_tid(), 4);
}

#[test]
fn test_what_lies_before_a_checkpoint_does_not_count() {
    let behind = vec![
        start(7),
        change(7, 70, "g"),
        begin(&[7]),
        end(),
        insert(7, 71),
        commit(7),
        start(8),
        change(8, 80, "h"),
    ];
    let mut short = vec![start(1), change(1, 10, "a"), commit(1)];
    let mut long = vec![
        start(1),
        change(1, 10, "a"),
        start(2),
        insert(2, 20),
        change(2, 70, "b"),
        start(9),
        change(9, 90, "c"),
        commit(9),
    ];
    short.extend(behind.clone());
    long.extend(behind);
    let short = log_of(short);
    let long = log_of(long);

    let undo = undo_plan::<MyLogData>(&short);
    assert_eq!(undo.ops, vec![update(80, "h")]);
    assert_eq!(undo.unfinished, vec![8]);
    assert_eq!(undo.last_tid, 8);
    assert_eq!(undo_plan::<MyLogData>(&long), undo);

    let redo = redo_plan::<MyLogData>(&short);
    assert_eq!(redo.ops, vec![update(70, "g")]);
    assert_eq!(redo.uncommitted, vec![8]);
    assert_eq!(redo.last_tid, 8);
    assert_eq!(redo_plan::<MyLogData>(&long), redo);
}

#[test]
fn test_redo_plan_does_again_what_committed() {
    let log = log_of(vec![
        start(1),
        change(1, 20, "Hello"),
        start(2),
        change(2, 30, "X"),
        change(1, 20, "World"),
        commit(1),
    ]);
    let plan = redo_plan::<MyLogData>(&log);
    // The reading backward comes to the start of the file; every change
    // of the committed transaction is done again once, in the order of
    // the log.
    assert_eq!(plan.ops, vec![update(20, "Hello"), update(20, "World")]);
    assert_eq!(plan.uncommitted, vec![2]);
    assert_eq!(plan.last_tid, 2);

    let (redo_log, bytes) = RedoLog::<MyLogData, MyStore>::new(&log, MyStore::default()).unwrap();
    assert_eq!(bytes, log_of_at(log.len(), vec![abort(2)]));
    let store = redo_log.into_store();
    assert_eq!(store.calls, vec!["update 20 Hello", "update 20 World", "flush"]);
    assert_eq!(store.map.get(&20), Some(&"World".to_string()));
    assert_eq!(store.map.get(&30), None);

    let plan = redo_plan::<MyLogData>(&[]);
    assert_eq!(plan.ops, vec![]);
    assert_eq!(plan.last_tid, 0);
}

#[test]
fn test_redo_plan_begins_at_a_checkpoint() {
    let log = log_of(vec![
        start(1),
        change(1, 10, "a"),
        commit(1),
        start(2),
        change(2, 20, "b"),
        begin(&[2]),
        end(),
        change(2, 21, "c"),
        commit(2),
        start(3),
        change(3, 30, "d"),
    ]);
    let plan = redo_plan::<MyLogData>(&log);
    // The reading backward stops at the start of the second transaction,
    // and what is done again begins with that entry.
    assert_eq!(plan.ops, vec![update(20, "b"), update(21, "c")]);
    assert_eq!(plan.uncommitted, vec![3]);
    assert_eq!(plan.last_tid, 3);

    // A begin mark that was not followed by an end mark bounds nothing.
    let log = log_of(vec![start(1), change(1, 10, "a"), commit(1), begin(&[]), start(2)]);
    let plan = redo_plan::<MyLogData>(&log);
    assert_eq!(plan.ops, vec![update(10, "a")]);

    // An aborted transaction gets no second abort entry.
    let log = log_of(vec![start(1), change(1, 10, "a"), abort(1)]);
    let plan = redo_plan::<MyLogData>(&log);
    assert_eq!(plan.ops, vec![]);
    assert_eq!(plan.uncommitted, Vec::<u64>::new());
    assert_eq!(plan.last_tid, 1);
}

#[test]
fn test_redo_recovery_of_an_entry_across_blocks() {
    // Thirteen long values: the thirteenth entry begins in the first
    // block of the file and ends in the second.
    let mut entries = vec![start(1)];
    let mut expected = Vec::new();
    for i in 0..13 {
        let value: String = std::iter::repeat(char::from(b'a' + i as u8)).take(2500).collect();
        entries.push(change(1, i, &value));
        expected.push(update(i, &value));
    }
    entries.push(commit(1));
    let log = log_of(entries);
    assert!(log.len() > 32768);
    assert!(log.len() < 2 * 32768);

    let plan = redo_plan::<MyLogData>(&log);
    assert_eq!(plan.ops, expected);
    assert_eq!(plan.uncommitted, Vec::<u64>::new());
    assert_eq!(plan.last_tid, 1);

    let (redo_log, bytes) = RedoLog::<MyLogData, MyStore>::new(&log, MyStore::default()).unwrap();
    assert!(bytes.is_empty());
    let store = redo_log.into_store();
    assert_eq!(store.calls.len(), 14);
    for i in 0..13 {
        assert_eq!(store.map.get(&i).map(|value| value.len()), Some(2500));
        assert!(store.calls[i as usize].starts_with(&format!("update {} ", i)));
    }
    assert_eq!(store.calls[13], "flush");
}

#[test]
fn test_redo_recovery_from_a_checkpoint_over_blocks() {
    // A checkpoint in the first block; the transaction that was active
    // at it writes on into the third block and commits.
    let mut entries = vec![start(1), change(1, -1, "old"), commit(1), start(2)];
    entries.push(change(2, -2, "kept"));
    entries.push(begin(&[2]));
    entries.push(end());
    let mut expected = vec![update(-2, "kept")];
    for i in 0..3000 {
        entries.push(change(2, i, "0123456789"));
        expected.push(update(i, "0123456789"));
    }
    entries.push(commit(2));
    let log = log_of(entries);
    assert!(log.len() > 2 * 32768);
    let plan = redo_plan::<MyLogData>(&log);
    assert_eq!(plan.ops.len(), 3001);
    assert_eq!(plan.ops, expected);
    assert_eq!(plan.uncommitted, Vec::<u64>::new());
    assert_eq!(plan.last_tid, 2);
}

#[test]
fn test_redo_recovery_over_blocks() {
    // Enough short entries for three blocks: every block ends with an
    // entry, and what committed is done again, each change once, to the
    // end of the log.
    let mut entries = vec![start(1)];
    for i in 0..3000 {
        entries.push(change(1, i, "0123456789"));
    }
    entries.push(commit(1));
    let log = log_of(entries);
    assert!(log.len() > 2 * 32768);
    let store = MyStore::default();
    let (redo_log, bytes) = RedoLog::<MyLogData, MyStore>::new(&log, store).unwrap();
    assert!(bytes.is_empty());
    assert_eq!(redo_log.last_tid(), 1);
    let store = redo_log.into_store();
    assert_eq!(store.map.len(), 3000);
    assert_eq!(store.calls.len(), 3001);
    assert_eq!(store.calls[0], "update 0 0123456789");
    assert_eq!(store.calls.last(), Some(&"flush".to_string()));
    assert_eq!(store.map.get(&2999), Some(&"0123456789".to_string()));
}

#[test]
fn test_redo_checkpoint_flushes_the_last_committed_writes() {
    let store = MyStore::default();
    let (mut redo_log, _) = RedoLog::<MyLogData, MyStore>::new(&[], store).unwrap();
    let tid1 = redo_log.start();
    let tid2 = redo_log.start();
    redo_log.write(tid1, 1, "a".to_string());
    redo_log.write(tid2, 2, "b".to_string());
    redo_log.write(tid1, 1, "c".to_string());
    let mut file = Vec::new();
    loop {
        match redo_log.commit(tid1).unwrap() {
            disk_utils::wal::Progress::More(bytes) => file.extend_from_slice(&bytes),
            disk_utils::wal::Progress::Done(bytes) => {
                file.extend_from_slice(&bytes);
                break;
            }
        }
    }
    loop {
        match redo_log.checkpoint().unwrap() {
            disk_utils::wal::Progress::More(bytes) => file.extend_from_slice(&bytes),
            disk_utils::wal::Progress::Done(bytes) => {
                file.extend_from_slice(&bytes);
                break;
            }
        }
    }
    let store = redo_log.into_store();
    // Opening the log flushes the store, too.
    assert_eq!(
        store.calls,
        vec!["flush", "update 1 a", "update 2 b", "update 1 c", "flush", "flush_change 1 c"]
    );
    assert_eq!(
        log_of(vec![
            start(1),
            start(2),
            change(1, 1, "a"),
            change(2, 2, "b"),
            change(1, 1, "c"),
            commit(1),
            begin(&[2]),
            end(),
        ]),
        file
    );
}

#[test]
fn test_watched_store_passes_calls_on() {
    let mut watched: Watched<MyLogData, MyStore> = Watched::new(MyStore::default());
    assert_eq!(watched.get(&1), None);
    watched.update(1, "a".to_string());
    watched.update(2, "b".to_string());
    assert_eq!(watched.get(&1), Some("a".to_string()));
    watched.remove(&1);
    assert_eq!(watched.get(&1), None);
    assert!(watched.flush().is_ok());
    assert!(watched.flush_change(3, "c".to_string()).is_ok());
    assert_eq!(watched.store().map.get(&2), Some(&"b".to_string()));
    let store = watched.into_store();
    assert_eq!(
        store.calls,
        vec!["update 1 a", "update 2 b", "remove 1", "flush", "flush_change 3 c"]
    );
    assert_eq!(store.map.len(), 1);
}
