use std::collections::HashMap;
use std::io;
use std::sync::{Arc, RwLock};

use disk_utils::wal::entries::{ChangeEntry, Checkpoint, SingleLogEntry, Transaction};
use disk_utils::wal::iterator::{ReadDirection, WalIterator};
use disk_utils::wal::redo_log::RedoLog;
use disk_utils::wal::{read_serializable, LogData, LogError, LogStore, Progress};

#[derive(Clone, PartialEq, Debug)]
struct MyLogData;

impl LogData for MyLogData {
    type Key = i32;
    type Value = String;
}

#[derive(Clone)]
struct MyStore<Data: LogData> {
    data: Arc<RwLock<HashMap<Data::Key, Data::Value>>>,
    flushed_data: Arc<RwLock<HashMap<Data::Key, Data::Value>>>,
    flush_err: Arc<RwLock<bool>>,
}

impl<Data> MyStore<Data>
where
    Data: LogData,
{
    pub fn new() -> MyStore<Data> {
        MyStore {
            data: Arc::new(RwLock::new(HashMap::new())),
            flushed_data: Arc::new(RwLock::new(HashMap::new())),
            flush_err: Arc::new(RwLock::new(false)),
        }
    }

    pub fn set_flush_err(&mut self, flush_err: bool) {
        *self.flush_err.write().unwrap() = flush_err;
    }

    pub fn get_flushed(&self, key: &Data::Key) -> Option<Data::Value> {
        self.flushed_data.read().unwrap().get(key).cloned()
    }

    pub fn discard_changes(&mut self) {
        *self.data.write().unwrap() = self.flushed_data.read().unwrap().clone();
    }
}

impl<Data> LogStore<Data> for MyStore<Data>
where
    Data: LogData,
{
    fn get(&self, key: &Data::Key) -> Option<Data::Value> {
        self.data.read().unwrap().get(key).cloned()
    }

    fn remove(&mut self, key: &Data::Key) {
        self.data.write().unwrap().remove(key);
    }

    fn update(&mut self, key: Data::Key, val: Data::Value) {
        self.data.write().unwrap().insert(key, val);
    }

    fn flush(&mut self) -> io::Result<()> {
        *self.flushed_data.write().unwrap() = self.data.read().unwrap().clone();
        if *self.flush_err.read().unwrap() {
            Err(io::Error::new(io::ErrorKind::Interrupted, "Flush error occurred"))
        } else {
            Ok(())
        }
    }

    fn flush_change(&mut self, key: Data::Key, val: Data::Value) -> io::Result<()> {
        self.flushed_data.write().unwrap().insert(key, val);
        if *self.flush_err.read().unwrap() {
            Err(io::Error::new(io::ErrorKind::Interrupted, "Flush error occurred"))
        } else {
            Ok(())
        }
    }
}

type Log = RedoLog<MyLogData, MyStore<MyLogData>>;

/// Opens the log on the file and appends what the recovery hands back.
fn open(file: &mut Vec<u8>, store: MyStore<MyLogData>) -> Result<Log, LogError> {
    let (log, bytes) = RedoLog::new(&file[..], store)?;
    file.extend_from_slice(&bytes);
    Ok(log)
}

/// Appends what a step hands back and tells whether it was the last.
fn append(file: &mut Vec<u8>, progress: Progress) -> bool {
    match progress {
        Progress::More(bytes) => {
            file.extend_from_slice(&bytes);
            false
        }
        Progress::Done(bytes) => {
            file.extend_from_slice(&bytes);
            true
        }
    }
}

/// Runs a commit to its end.
fn commit(log: &mut Log, file: &mut Vec<u8>, tid: u64) -> Result<(), LogError> {
    loop {
        if append(file, log.commit(tid)?) {
            return Ok(());
        }
    }
}

/// Runs a checkpoint to its end.
fn checkpoint(log: &mut Log, file: &mut Vec<u8>) -> Result<(), LogError> {
    loop {
        if append(file, log.checkpoint()?) {
            return Ok(());
        }
    }
}

fn read_all(file: &[u8]) -> Vec<SingleLogEntry<MyLogData>> {
    let mut entries = Vec::new();
    let mut iter = WalIterator::new(file, ReadDirection::Forward);
    while let Ok(data) = read_serializable::<SingleLogEntry<MyLogData>>(&mut iter) {
        entries.push(data);
    }
    entries
}

fn change(tid: u64, key: i32, value: &str) -> SingleLogEntry<MyLogData> {
    SingleLogEntry::ChangeEntry(ChangeEntry { tid, key, value: value.to_string() })
}

#[test]
fn test_redo_log_test_start() {
    let mut file = Vec::new();
    let store: MyStore<MyLogData> = MyStore::new();
    let mut redo_log = open(&mut file, store).unwrap();
    let tid = redo_log.start();

    assert_eq!(tid, 1);
    assert_eq!(redo_log.entries().len(), 1);
    assert_eq!(redo_log.entries()[0], SingleLogEntry::Transaction(Transaction::Start(1)));
}

#[test]
fn test_redo_log_test_write() {
    let mut file = Vec::new();
    let store: MyStore<MyLogData> = MyStore::new();
    let mut redo_log = open(&mut file, store).unwrap();

    let tid = redo_log.start();
    assert_eq!(tid, 1);

    redo_log.write(tid, 20, "Hello".to_string());

    assert_eq!(redo_log.entries().len(), 2);
    assert_eq!(
        redo_log.entries()[1],
        SingleLogEntry::ChangeEntry(ChangeEntry {
            tid: 1,
            key: 20,
            value: "Hello".to_string(),
        })
    );

    redo_log.write(tid, 20, "World".to_string());

    assert_eq!(redo_log.entries().len(), 3);
    assert_eq!(
        redo_log.entries()[2],
        SingleLogEntry::ChangeEntry(ChangeEntry {
            tid: 1,
            key: 20,
            value: "World".to_string(),
        })
    );
}

#[test]
fn test_redo_log_test_commit() {
    let mut file = Vec::new();
    let store: MyStore<MyLogData> = MyStore::new();
    let mut redo_log = open(&mut file, store.clone()).unwrap();
    let tid = redo_log.start();
    assert_eq!(tid, 1);
    redo_log.write(tid, 20, "Hello".to_string());
    redo_log.write(tid, 20, "World".to_string());
    commit(&mut redo_log, &mut file, tid).unwrap();

    let mut expected_entries = vec![
        SingleLogEntry::Transaction(Transaction::Start(1)),
        SingleLogEntry::ChangeEntry(ChangeEntry {
            tid: 1,
            key: 20,
            value: "Hello".to_string(),
        }),
        SingleLogEntry::ChangeEntry(ChangeEntry {
            tid: 1,
            key: 20,
            value: "World".to_string(),
        }),
        SingleLogEntry::Transaction(Transaction::Commit(1)),
    ]
    .into_iter();
    let mut iter = WalIterator::new(&file, ReadDirection::Forward);
    while let Ok(data) = read_serializable::<SingleLogEntry<MyLogData>>(&mut iter) {
        assert_eq!(data, expected_entries.next().unwrap());
    }
    assert_eq!(expected_entries.next(), None);
    assert_eq!(store.get_flushed(&20), Some("World".to_string()));
}

#[test]
fn test_redo_log_test_recover() {
    let mut file = Vec::new();
    let mut store: MyStore<MyLogData> = MyStore::new();
    {
        let mut redo_log = open(&mut file, store.clone()).unwrap();
        let tid = redo_log.start();
        redo_log.write(tid, 20, "Hello".to_string());
        commit(&mut redo_log, &mut file, tid).unwrap();

        let tid = redo_log.start();
        redo_log.write(tid, 20, "World".to_string());
        redo_log.write(tid, 30, "Hello".to_string());

        let tid = redo_log.start();
        commit(&mut redo_log, &mut file, tid).unwrap();
    }

    store.discard_changes();
    // Create a new redo log which should automatically recover data.
    let mut redo_log = open(&mut file, store.clone()).unwrap();
    assert_eq!(redo_log.start(), 4);

    let mut expected_entries = vec![
        SingleLogEntry::Transaction(Transaction::Start(1)),
        SingleLogEntry::ChangeEntry(ChangeEntry {
            tid: 1,
            key: 20,
            value: "Hello".to_string(),
        }),
        SingleLogEntry::Transaction(Transaction::Commit(1)),
        SingleLogEntry::Transaction(Transaction::Start(2)),
        SingleLogEntry::ChangeEntry(ChangeEntry {
            tid: 2,
            key: 20,
            value: "World".to_string(),
        }),
        SingleLogEntry::ChangeEntry(ChangeEntry {
            tid: 2,
            key: 30,
            value: "Hello".to_string(),
        }),
        SingleLogEntry::Transaction(Transaction::Start(3)),
        SingleLogEntry::Transaction(Transaction::Commit(3)),
        SingleLogEntry::Transaction(Transaction::Abort(2)),
    ]
    .into_iter();
    let mut iter = WalIterator::new(&file, ReadDirection::Forward);
    while let Ok(data) = read_serializable::<SingleLogEntry<MyLogData>>(&mut iter) {
        assert_eq!(data, expected_entries.next().unwrap());
    }
    assert_eq!(expected_entries.next(), None);

    assert_eq!(store.get_flushed(&20), Some("Hello".to_string()));
    // The store flushed all it held when the third transaction committed,
    // the second transaction's write to this key with it, and no committed
    // write to the key came after.
    assert_eq!(store.get_flushed(&30), Some("Hello".to_string()));
}

#[test]
fn test_redo_log_test_multiple_recover() {
    let mut file = Vec::new();
    let mut store: MyStore<MyLogData> = MyStore::new();
    {
        let mut redo_log = open(&mut file, store.clone()).unwrap();
        let tid1 = redo_log.start();
        let tid2 = redo_log.start();
        redo_log.write(tid1, 20, "Hello".to_string());
        redo_log.write(tid2, 30, "World".to_string());
        redo_log.write(tid1, 30, "Blah".to_string());
        commit(&mut redo_log, &mut file, tid1).unwrap();
        redo_log.write(tid2, 20, "World".to_string());
        commit(&mut redo_log, &mut file, tid2).unwrap();

        let tid3 = redo_log.start();
        let tid4 = redo_log.start();

        redo_log.write(tid3, 40, "Foo".to_string());
        redo_log.write(tid4, 30, "Bar".to_string());
        commit(&mut redo_log, &mut file, tid3).unwrap();

        redo_log.write(tid4, 50, "Hello".to_string());
    }

    store.discard_changes();

    // Create a new redo log which should automatically recover data.
    let mut redo_log = open(&mut file, store.clone()).unwrap();
    assert_eq!(redo_log.start(), 5);

    let mut expected_entries = vec![
        SingleLogEntry::Transaction(Transaction::Start(1)),
        SingleLogEntry::Transaction(Transaction::Start(2)),
        SingleLogEntry::ChangeEntry(ChangeEntry {
            tid: 1,
            key: 20,
            value: "Hello".to_string(),
        }),
        SingleLogEntry::ChangeEntry(ChangeEntry {
            tid: 2,
            key: 30,
            value: "World".to_string(),
        }),
        SingleLogEntry::ChangeEntry(ChangeEntry {
            tid: 1,
            key: 30,
            value: "Blah".to_string(),
        }),
        SingleLogEntry::Transaction(Transaction::Commit(1)),
        SingleLogEntry::ChangeEntry(ChangeEntry {
            tid: 2,
            key: 20,
            value: "World".to_string(),
        }),
        SingleLogEntry::Transaction(Transaction::Commit(2)),
        SingleLogEntry::Transaction(Transaction::Start(3)),
        SingleLogEntry::Transaction(Transaction::Start(4)),
        SingleLogEntry::ChangeEntry(ChangeEntry {
            tid: 3,
            key: 40,
            value: "Foo".to_string(),
        }),
        SingleLogEntry::ChangeEntry(ChangeEntry {
            tid: 4,
            key: 30,
            value: "Bar".to_string(),
        }),
        SingleLogEntry::Transaction(Transaction::Commit(3)),
        SingleLogEntry::Transaction(Transaction::Abort(4)),
    ]
    .into_iter();
    let mut iter = WalIterator::new(&file, ReadDirection::Forward);
    while let Ok(data) = read_serializable::<SingleLogEntry<MyLogData>>(&mut iter) {
        assert_eq!(data, expected_entries.next().unwrap());
    }
    assert_eq!(expected_entries.next(), None);

    // Test expected state after recovery:
    assert_eq!(store.get_flushed(&20), Some("World".to_string()));
    assert_eq!(store.get_flushed(&30), Some("Blah".to_string()));
    assert_eq!(store.get_flushed(&40), Some("Foo".to_string()));
    assert_eq!(store.get_flushed(&50), None);
}

#[test]
fn test_redo_log_test_add_end_checkpoint() {
    let mut file = Vec::new();
    let store: MyStore<MyLogData> = MyStore::new();
    {
        let mut redo_log = open(&mut file, store.clone()).unwrap();
        let tid1 = redo_log.start();
        let tid2 = redo_log.start();
        commit(&mut redo_log, &mut file, tid1).unwrap();
        let tid3 = redo_log.start();
        let tid4 = redo_log.start();
        checkpoint(&mut redo_log, &mut file).unwrap();
        commit(&mut redo_log, &mut file, tid3).unwrap();
        commit(&mut redo_log, &mut file, tid4).unwrap();
        commit(&mut redo_log, &mut file, tid2).unwrap();
    }

    let mut redo_log = open(&mut file, store.clone()).unwrap();
    assert_eq!(redo_log.start(), 5);

    let mut expected_entries = vec![
        SingleLogEntry::Transaction(Transaction::Start(1)),
        SingleLogEntry::Transaction(Transaction::Start(2)),
        SingleLogEntry::Transaction(Transaction::Commit(1)),
        SingleLogEntry::Transaction(Transaction::Start(3)),
        SingleLogEntry::Transaction(Transaction::Start(4)),
        SingleLogEntry::Checkpoint(Checkpoint::Begin(vec![2, 3, 4])),
        SingleLogEntry::Checkpoint(Checkpoint::End),
        SingleLogEntry::Transaction(Transaction::Commit(3)),
        SingleLogEntry::Transaction(Transaction::Commit(4)),
        SingleLogEntry::Transaction(Transaction::Commit(2)),
    ]
    .into_iter();
    let mut iter = WalIterator::new(&file, ReadDirection::Forward);
    while let Ok(data) = read_serializable::<SingleLogEntry<MyLogData>>(&mut iter) {
        if let SingleLogEntry::Checkpoint(Checkpoint::Begin(mut data)) = data {
            data.sort();
            assert_eq!(
                SingleLogEntry::Checkpoint(Checkpoint::Begin(data)),
                expected_entries.next().unwrap()
            );
        } else {
            assert_eq!(data, expected_entries.next().unwrap());
        }
    }
    assert_eq!(expected_entries.next(), None);
}

#[test]
fn test_redo_log_test_checkpoint_recover_after_end() {
    let mut file = Vec::new();
    let mut store: MyStore<MyLogData> = MyStore::new();
    {
        let mut redo_log = open(&mut file, store.clone()).unwrap();
        let tid1 = redo_log.start();
        let tid2 = redo_log.start();

        redo_log.write(tid1, 20, "Hello".to_string());
        redo_log.write(tid2, 20, "World".to_string());
        redo_log.write(tid2, 30, "Blah".to_string());
        redo_log.write(tid1, 30, "Foo".to_string());

        commit(&mut redo_log, &mut file, tid1).unwrap();
        commit(&mut redo_log, &mut file, tid2).unwrap();

        let tid3 = redo_log.start();
        let tid4 = redo_log.start();
        let tid5 = redo_log.start();

        redo_log.write(tid3, 20, "A".to_string());
        redo_log.write(tid5, 30, "B".to_string());
        redo_log.write(tid4, 30, "C".to_string());
        redo_log.write(tid4, 50, "D".to_string());

        checkpoint(&mut redo_log, &mut file).unwrap();
        commit(&mut redo_log, &mut file, tid4).unwrap();
        commit(&mut redo_log, &mut file, tid3).unwrap();
        commit(&mut redo_log, &mut file, tid5).unwrap();
    }

    store.discard_changes();

    // Create a new redo log which should automatically recover data.
    let mut redo_log = open(&mut file, store.clone()).unwrap();
    assert_eq!(redo_log.start(), 6);

    assert_eq!(store.get_flushed(&20), Some("A".to_string()));
    assert_eq!(store.get_flushed(&30), Some("C".to_string()));
    assert_eq!(store.get_flushed(&50), Some("D".to_string()));
    assert_eq!(store.get_flushed(&60), None);
}

#[test]
fn test_checkpoint_flushed_changes() {
    let mut file = Vec::new();
    let mut store: MyStore<MyLogData> = MyStore::new();
    {
        let mut redo_log = open(&mut file, store.clone()).unwrap();
        let tid1 = redo_log.start();
        let tid2 = redo_log.start();

        redo_log.write(tid1, 20, "Hello".to_string());
        redo_log.write(tid2, 30, "World".to_string());
        redo_log.write(tid2, 20, "World".to_string());
        redo_log.write(tid1, 30, "Hello".to_string());

        commit(&mut redo_log, &mut file, tid2).unwrap();
        // Should  flush (20 -> "World") and (30 -> "World") to disk.
        checkpoint(&mut redo_log, &mut file).unwrap();
        assert_eq!(store.get_flushed(&20), Some("World".to_string()));
        assert_eq!(store.get_flushed(&30), Some("World".to_string()));

        redo_log.write(tid1, 40, "New key".to_string());

        let tid3 = redo_log.start();
        let tid4 = redo_log.start();
        redo_log.write(tid3, 50, "New key".to_string());
        redo_log.write(tid4, 50, "New new key".to_string());
        commit(&mut redo_log, &mut file, tid3).unwrap();
    }

    store.discard_changes();
    // Create a new redo log which should automatically recover data.
    let _ = open(&mut file, store.clone()).unwrap();
    assert_eq!(store.get_flushed(&20), Some("World".to_string()));
    assert_eq!(store.get_flushed(&30), Some("World".to_string()));
    // The store flushed all it held when the third transaction committed,
    // the first transaction's write to this key with it, and no committed
    // write to the key came after.
    assert_eq!(store.get_flushed(&40), Some("New key".to_string()));
    assert_eq!(store.get_flushed(&50), Some("New key".to_string()));
}

#[test]
fn test_redo_recovery_leaves_uncommitted_writes_out() {
    let mut file = Vec::new();
    let mut store: MyStore<MyLogData> = MyStore::new();
    {
        let mut redo_log = open(&mut file, store.clone()).unwrap();
        let tid = redo_log.start();
        redo_log.write(tid, 20, "Hello".to_string());
        redo_log.write(tid, 20, "World".to_string());
        commit(&mut redo_log, &mut file, tid).unwrap();
        assert_eq!(store.get_flushed(&20), Some("World".to_string()));

        let tid = redo_log.start();
        redo_log.write(tid, 30, "X".to_string());
        // The entries reach the file, the commit does not come.
        assert!(!append(&mut file, redo_log.checkpoint().unwrap()));
    }

    store.discard_changes();
    let mut redo_log = open(&mut file, store.clone()).unwrap();
    assert_eq!(store.get_flushed(&20), Some("World".to_string()));
    assert_eq!(store.get_flushed(&30), None);
    assert_eq!(read_all(&file).last(), Some(&SingleLogEntry::Transaction(Transaction::Abort(2))));
    assert_eq!(redo_log.start(), 3);
}

#[test]
fn test_redo_recovery_does_committed_writes_again() {
    let mut file = Vec::new();
    let mut store: MyStore<MyLogData> = MyStore::new();
    {
        let mut redo_log = open(&mut file, store.clone()).unwrap();
        let tid = redo_log.start();
        redo_log.write(tid, 20, "Hello".to_string());
        redo_log.write(tid, 21, "World".to_string());
        // The commit entry reaches the file, and then the store does not
        // flush.
        assert!(!append(&mut file, redo_log.commit(tid).unwrap()));
    }
    assert_eq!(store.get_flushed(&20), None);
    store.discard_changes();
    assert_eq!(store.get(&20), None);

    let redo_log = open(&mut file, store.clone()).unwrap();
    assert_eq!(store.get_flushed(&20), Some("Hello".to_string()));
    assert_eq!(store.get_flushed(&21), Some("World".to_string()));
    assert_eq!(redo_log.last_tid(), 1);
    assert_eq!(
        read_all(&file),
        vec![
            SingleLogEntry::Transaction(Transaction::Start(1)),
            change(1, 20, "Hello"),
            change(1, 21, "World"),
            SingleLogEntry::Transaction(Transaction::Commit(1)),
        ]
    );
}

#[test]
fn test_redo_commit_goes_in_steps() {
    let mut file = Vec::new();
    let mut store: MyStore<MyLogData> = MyStore::new();
    let mut redo_log = open(&mut file, store.clone()).unwrap();

    match redo_log.commit(9).unwrap() {
        Progress::Done(bytes) => assert!(bytes.is_empty()),
        Progress::More(_) => panic!("nothing to write"),
    }

    let tid = redo_log.start();
    redo_log.write(tid, 20, "Hello".to_string());
    redo_log.write(8, 21, "Not written".to_string());
    assert_eq!(redo_log.store().get(&21), None);
    assert_eq!(redo_log.entries().len(), 2);

    assert!(!append(&mut file, redo_log.commit(tid).unwrap()));
    assert_eq!(read_all(&file).len(), 3);
    assert!(redo_log.is_active(tid));
    assert_eq!(store.get_flushed(&20), None);

    // What is staged before the commit is complete goes out first.
    let other = redo_log.start();
    assert!(!append(&mut file, redo_log.commit(tid).unwrap()));
    assert_eq!(read_all(&file).len(), 4);
    assert_eq!(store.get_flushed(&20), None);

    // The store fails: the transaction stays active.
    store.set_flush_err(true);
    match redo_log.commit(tid) {
        Err(LogError::IoError(e)) => assert_eq!(e.kind(), io::ErrorKind::Interrupted),
        _ => panic!("the store cannot flush"),
    }
    assert!(redo_log.is_active(tid));
    store.set_flush_err(false);

    commit(&mut redo_log, &mut file, tid).unwrap();
    assert!(!redo_log.is_active(tid));
    assert!(redo_log.is_active(other));
    assert_eq!(store.get_flushed(&20), Some("Hello".to_string()));
    assert_eq!(
        read_all(&file),
        vec![
            SingleLogEntry::Transaction(Transaction::Start(1)),
            change(1, 20, "Hello"),
            SingleLogEntry::Transaction(Transaction::Commit(1)),
            SingleLogEntry::Transaction(Transaction::Start(2)),
            SingleLogEntry::Transaction(Transaction::Commit(1)),
        ]
    );
}

#[test]
fn test_redo_checkpoint_fails_with_the_store() {
    let mut file = Vec::new();
    let mut store: MyStore<MyLogData> = MyStore::new();
    let mut redo_log = open(&mut file, store.clone()).unwrap();
    let tid = redo_log.start();
    redo_log.write(tid, 20, "Hello".to_string());
    commit(&mut redo_log, &mut file, tid).unwrap();

    store.set_flush_err(true);
    match checkpoint(&mut redo_log, &mut file) {
        Err(LogError::IoError(e)) => assert_eq!(e.kind(), io::ErrorKind::Interrupted),
        _ => panic!("the store cannot flush"),
    }
    // The begin mark is in the file and no end mark.
    assert_eq!(
        read_all(&file).last(),
        Some(&SingleLogEntry::Checkpoint(Checkpoint::Begin(vec![])))
    );
    match open(&mut file, store.clone()) {
        Err(LogError::IoError(_)) => {}
        _ => panic!("the store cannot flush"),
    }
    store.set_flush_err(false);
    // A checkpoint starts anew.
    checkpoint(&mut redo_log, &mut file).unwrap();
    let entries = read_all(&file);
    assert_eq!(
        entries[entries.len() - 3..],
        [
            SingleLogEntry::Checkpoint(Checkpoint::Begin(vec![])),
            SingleLogEntry::Checkpoint(Checkpoint::Begin(vec![])),
            SingleLogEntry::Checkpoint(Checkpoint::End),
        ]
    );
}
