use std::collections::HashMap;
use std::io;
use std::sync::{Arc, RwLock};

use disk_utils::wal::entries::{ChangeEntry, Checkpoint, InsertEntry, SingleLogEntry, Transaction};
use disk_utils::wal::iterator::{ReadDirection, WalIterator};
use disk_utils::wal::undo_log::UndoLog;
use disk_utils::wal::{read_serializable, LogData, LogStore, Progress};

#[derive(Clone, PartialEq, Debug)]
struct MyLogData;

impl LogData for MyLogData {
    type Key = i32;
    type Value = String;
}

#[derive(Clone)]
struct MyStore<Data: LogData> {
    map: Arc<RwLock<HashMap<Data::Key, Data::Value>>>,
    flush_err: Arc<RwLock<bool>>,
}

impl<Data> MyStore<Data>
where
    Data: LogData,
{
    pub fn new() -> MyStore<Data> {
        MyStore {
            map: Arc::new(RwLock::new(HashMap::new())),
            flush_err: Arc::new(RwLock::new(false)),
        }
    }

    pub fn set_flush_err(&mut self, flush_err: bool) {
        *self.flush_err.write().unwrap() = flush_err;
    }
}

impl<Data> LogStore<Data> for MyStore<Data>
where
    Data: LogData,
{
    fn get(&self, key: &Data::Key) -> Option<Data::Value> {
        self.map.read().unwrap().get(key).cloned()
    }

    fn remove(&mut self, key: &Data::Key) {
        self.map.write().unwrap().remove(key);
    }

    fn update(&mut self, key: Data::Key, val: Data::Value) {
        self.map.write().unwrap().insert(key, val);
    }

    fn flush(&mut self) -> io::Result<()> {
        if *self.flush_err.read().unwrap() {
            Err(io::Error::new(io::ErrorKind::Interrupted, "Flush error occurred"))
        } else {
            Ok(())
        }
    }

    fn flush_change(&mut self, _: Data::Key, _: Data::Value) -> io::Result<()> {
        if *self.flush_err.read().unwrap() {
            Err(io::Error::new(io::ErrorKind::Interrupted, "Flush error occurred"))
        } else {
            Ok(())
        }
    }
}

type Log = UndoLog<MyLogData, MyStore<MyLogData>>;

/// Opens the log on the file and appends what the recovery hands back.
fn open(file: &mut Vec<u8>, store: MyStore<MyLogData>) -> io::Result<Log> {
    let (log, bytes) = UndoLog::new(&file[..], store)?;
    file.extend_from_slice(&bytes);
    Ok(log)
}

/// Runs a commit to its end, appending what each step hands back.
fn commit(log: &mut Log, file: &mut Vec<u8>, tid: u64) -> io::Result<()> {
    loop {
        match log.commit(tid)? {
            Progress::More(bytes) => file.extend_from_slice(&bytes),
            Progress::Done(bytes) => {
                file.extend_from_slice(&bytes);
                return Ok(());
            }
        }
    }
}

fn checkpoint(log: &mut Log, file: &mut Vec<u8>) {
    let bytes = log.checkpoint();
    file.extend_from_slice(&bytes);
}

fn read_all(file: &[u8]) -> Vec<SingleLogEntry<MyLogData>> {
    let mut entries = Vec::new();
    let mut iter = WalIterator::new(file, ReadDirection::Forward);
    while let Ok(data) = read_serializable::<SingleLogEntry<MyLogData>>(&mut iter) {
        entries.push(data);
    }
    entries
}

#[test]
fn test_undo_log_test_start() {
    let mut file = Vec::new();
    let store: MyStore<MyLogData> = MyStore::new();
    let mut undo_log = open(&mut file, store).unwrap();
    let tid = undo_log.start();

    assert_eq!(tid, 1);
    assert_eq!(undo_log.entries().len(), 1);
    assert_eq!(undo_log.entries()[0], SingleLogEntry::Transaction(Transaction::Start(1)));
}

#[test]
fn test_undo_log_test_write() {
    let mut file = Vec::new();
    let store: MyStore<MyLogData> = MyStore::new();
    let mut undo_log = open(&mut file, store).unwrap();

    let tid = undo_log.start();
    assert_eq!(tid, 1);

    undo_log.write(tid, 20, "Hello".to_string());

    assert_eq!(undo_log.entries().len(), 2);
    assert_eq!(undo_log.entries()[1], SingleLogEntry::InsertEntry(InsertEntry { tid: 1, key: 20 }));

    undo_log.write(tid, 20, "World".to_string());

    assert_eq!(undo_log.entries().len(), 3);
    assert_eq!(
        undo_log.entries()[2],
        SingleLogEntry::ChangeEntry(ChangeEntry {
            tid: 1,
            key: 20,
            value: "Hello".to_string(),
        })
    );
}

#[test]
fn test_undo_log_test_commit() {
    let mut file = Vec::new();
    let store: MyStore<MyLogData> = MyStore::new();
    let mut undo_log = open(&mut file, store.clone()).unwrap();
    let tid = undo_log.start();
    assert_eq!(tid, 1);
    undo_log.write(tid, 20, "Hello".to_string());
    undo_log.write(tid, 20, "World".to_string());
    commit(&mut undo_log, &mut file, tid).unwrap();

    let mut expected_entries = vec![
        SingleLogEntry::Transaction(Transaction::Start(1)),
        SingleLogEntry::InsertEntry(InsertEntry { tid: 1, key: 20 }),
        SingleLogEntry::ChangeEntry(ChangeEntry {
            tid: 1,
            key: 20,
            value: "Hello".to_string(),
        }),
        SingleLogEntry::Transaction(Transaction::Commit(1)),
    ]
    .into_iter();
    let mut iter = WalIterator::new(&file, ReadDirection::Forward);
    while let Ok(data) = read_serializable::<SingleLogEntry<MyLogData>>(&mut iter) {
        assert_eq!(data, expected_entries.next().unwrap());
    }
    assert_eq!(expected_entries.next(), None);
    assert_eq!(store.get(&20), Some("World".to_string()));
    assert!(undo_log.entries().is_empty());
}

#[test]
fn test_undo_log_test_recover() {
    let mut file = Vec::new();
    let mut store: MyStore<MyLogData> = MyStore::new();
    {
        let mut undo_log = open(&mut file, store.clone()).unwrap();
        let tid = undo_log.start();
        undo_log.write(tid, 20, "Hello".to_string());
        commit(&mut undo_log, &mut file, tid).unwrap();

        store.set_flush_err(true);

        let tid = undo_log.start();
        undo_log.write(tid, 20, "World".to_string());
        undo_log.write(tid, 30, "Hello".to_string());
        assert!(commit(&mut undo_log, &mut file, tid).is_err());

        store.set_flush_err(false);
    }

    // Create a new undo log which should automatically recover data.
    let mut undo_log = open(&mut file, store.clone()).unwrap();
    assert_eq!(undo_log.start(), 3);

    let mut expected_entries = vec![
        SingleLogEntry::Transaction(Transaction::Start(1)),
        SingleLogEntry::InsertEntry(InsertEntry { tid: 1, key: 20 }),
        SingleLogEntry::Transaction(Transaction::Commit(1)),
        SingleLogEntry::Transaction(Transaction::Start(2)),
        SingleLogEntry::ChangeEntry(ChangeEntry {
            tid: 2,
            key: 20,
            value: "Hello".to_string(),
        }),
        SingleLogEntry::InsertEntry(InsertEntry { tid: 2, key: 30 }),
        SingleLogEntry::Transaction(Transaction::Abort(2)),
    ]
    .into_iter();
    let mut iter = WalIterator::new(&file, ReadDirection::Forward);
    while let Ok(data) = read_serializable::<SingleLogEntry<MyLogData>>(&mut iter) {
        assert_eq!(data, expected_entries.next().unwrap());
    }
    assert_eq!(expected_entries.next(), None);

    assert_eq!(store.get(&20), Some("Hello".to_string()));
    assert_eq!(store.get(&30), None);
}

#[test]
fn test_undo_log_test_multiple_recover() {
    let mut file = Vec::new();
    let mut store: MyStore<MyLogData> = MyStore::new();
    {
        let mut undo_log = open(&mut file, store.clone()).unwrap();
        let tid1 = undo_log.start();
        let tid2 = undo_log.start();
        undo_log.write(tid1, 20, "Hello".to_string());
        undo_log.write(tid2, 30, "World".to_string());
        undo_log.write(tid1, 30, "Blah".to_string());
        commit(&mut undo_log, &mut file, tid1).unwrap();
        undo_log.write(tid2, 20, "World".to_string());
        commit(&mut undo_log, &mut file, tid2).unwrap();

        let tid3 = undo_log.start();
        let tid4 = undo_log.start();

        undo_log.write(tid3, 40, "Foo".to_string());
        undo_log.write(tid4, 30, "Bar".to_string());
        commit(&mut undo_log, &mut file, tid3).unwrap();

        undo_log.write(tid4, 50, "Hello".to_string());
        store.set_flush_err(true);
        assert!(commit(&mut undo_log, &mut file, tid4).is_err());
        store.set_flush_err(false);
    }

    // Create a new undo log which should automatically recover data.
    let mut undo_log = open(&mut file, store.clone()).unwrap();
    assert_eq!(undo_log.start(), 5);

    let mut expected_entries = vec![
        SingleLogEntry::Transaction(Transaction::Start(1)),
        SingleLogEntry::Transaction(Transaction::Start(2)),
        SingleLogEntry::InsertEntry(InsertEntry { tid: 1, key: 20 }),
        SingleLogEntry::InsertEntry(InsertEntry { tid: 2, key: 30 }),
        SingleLogEntry::ChangeEntry(ChangeEntry {
            tid: 1,
            key: 30,
            value: "World".to_string(),
        }),
        SingleLogEntry::Transaction(Transaction::Commit(1)),
        SingleLogEntry::ChangeEntry(ChangeEntry {
            tid: 2,
            key: 20,
            value: "Hello".to_string(),
        }),
        SingleLogEntry::Transaction(Transaction::Commit(2)),
        SingleLogEntry::Transaction(Transaction::Start(3)),
        SingleLogEntry::Transaction(Transaction::Start(4)),
        SingleLogEntry::InsertEntry(InsertEntry { tid: 3, key: 40 }),
        SingleLogEntry::ChangeEntry(ChangeEntry {
            tid: 4,
            key: 30,
            value: "Blah".to_string(),
        }),
        SingleLogEntry::Transaction(Transaction::Commit(3)),
        SingleLogEntry::InsertEntry(InsertEntry { tid: 4, key: 50 }),
        SingleLogEntry::Transaction(Transaction::Abort(4)),
    ]
    .into_iter();
    let mut iter = WalIterator::new(&file, ReadDirection::Forward);
    while let Ok(data) = read_serializable::<SingleLogEntry<MyLogData>>(&mut iter) {
        assert_eq!(data, expected_entries.next().unwrap());
    }
    assert_eq!(expected_entries.next(), None);

    // Test expected state after recovery:
    assert_eq!(store.get(&20), Some("World".to_string()));
    assert_eq!(store.get(&30), Some("Blah".to_string()));
    assert_eq!(store.get(&40), Some("Foo".to_string()));
    assert_eq!(store.get(&50), None);
}

#[test]
fn test_undo_log_test_add_end_checkpoint() {
    let mut file = Vec::new();
    let store: MyStore<MyLogData> = MyStore::new();
    {
        let mut undo_log = open(&mut file, store.clone()).unwrap();
        let tid1 = undo_log.start();
        let tid2 = undo_log.start();
        commit(&mut undo_log, &mut file, tid1).unwrap();
        let tid3 = undo_log.start();
        let tid4 = undo_log.start();
        checkpoint(&mut undo_log, &mut file);
        commit(&mut undo_log, &mut file, tid3).unwrap();
        commit(&mut undo_log, &mut file, tid4).unwrap();
        commit(&mut undo_log, &mut file, tid2).unwrap();
    }

    let mut undo_log = open(&mut file, store.clone()).unwrap();
    assert_eq!(undo_log.start(), 5);

    let mut expected_entries = vec![
        SingleLogEntry::Transaction(Transaction::Start(1)),
        SingleLogEntry::Transaction(Transaction::Start(2)),
        SingleLogEntry::Transaction(Transaction::Commit(1)),
        SingleLogEntry::Transaction(Transaction::Start(3)),
        SingleLogEntry::Transaction(Transaction::Start(4)),
        SingleLogEntry::Checkpoint(Checkpoint::Begin(vec![2, 3, 4])),
        SingleLogEntry::Transaction(Transaction::Commit(3)),
        SingleLogEntry::Transaction(Transaction::Commit(4)),
        SingleLogEntry::Transaction(Transaction::Commit(2)),
        SingleLogEntry::Checkpoint(Checkpoint::End),
    ]
    .into_iter();
    let mut iter = WalIterator::new(&file, ReadDirection::Forward);
    while let Ok(data) = read_serializable::<SingleLogEntry<MyLogData>>(&mut iter) {
        if let SingleLogEntry::Checkpoint(Checkpoint::Begin(mut data)) = data {
            data.sort();
            assert_eq!(
                SingleLogEntry::Checkpoint(Checkpoint::Begin(data)),
                expected_entries.next().unwrap()
            );
        } else {
            assert_eq!(data, expected_entries.next().unwrap());
        }
    }
    assert_eq!(expected_entries.next(), None);
}

#[test]
fn test_checkpoint_recover_before_end() {
    let mut file = Vec::new();
    let mut store: MyStore<MyLogData> = MyStore::new();
    {
        let mut undo_log = open(&mut file, store.clone()).unwrap();
        let tid1 = undo_log.start();
        let tid2 = undo_log.start();

        undo_log.write(tid1, 20, "Hello".to_string());
        undo_log.write(tid2, 20, "World".to_string());
        undo_log.write(tid2, 30, "Blah".to_string());
        undo_log.write(tid1, 30, "Foo".to_string());

        commit(&mut undo_log, &mut file, tid1).unwrap();
        commit(&mut undo_log, &mut file, tid2).unwrap();

        let tid3 = undo_log.start();
        let tid4 = undo_log.start();
        let tid5 = undo_log.start();

        undo_log.write(tid3, 20, "A".to_string());
        undo_log.write(tid5, 30, "B".to_string());
        undo_log.write(tid4, 30, "C".to_string());
        undo_log.write(tid4, 50, "D".to_string());

        commit(&mut undo_log, &mut file, tid4).unwrap();
        checkpoint(&mut undo_log, &mut file);

        let tid6 = undo_log.start();
        undo_log.write(tid6, 60, "E".to_string());
        commit(&mut undo_log, &mut file, tid6).unwrap();

        store.set_flush_err(true);
        assert!(commit(&mut undo_log, &mut file, tid3).is_err());
        store.set_flush_err(false);
    }

    // Create a new undo log which should automatically recover data.
    let mut undo_log = open(&mut file, store.clone()).unwrap();
    assert_eq!(undo_log.start(), 7);

    assert_eq!(store.get(&20), Some("World".to_string()));
    assert_eq!(store.get(&30), Some("Foo".to_string()));
    assert_eq!(store.get(&50), Some("D".to_string()));
    assert_eq!(store.get(&60), Some("E".to_string()));
}

#[test]
fn test_undo_log_test_checkpoint_recover_after_end() {
    let mut file = Vec::new();
    let mut store: MyStore<MyLogData> = MyStore::new();
    {
        let mut undo_log = open(&mut file, store.clone()).unwrap();
        let tid1 = undo_log.start();
        let tid2 = undo_log.start();

        undo_log.write(tid1, 20, "Hello".to_string());
        undo_log.write(tid2, 20, "World".to_string());
        undo_log.write(tid2, 30, "Blah".to_string());
        undo_log.write(tid1, 30, "Foo".to_string());

        commit(&mut undo_log, &mut file, tid1).unwrap();
        commit(&mut undo_log, &mut file, tid2).unwrap();

        let tid3 = undo_log.start();
        let tid4 = undo_log.start();
        let tid5 = undo_log.start();

        undo_log.write(tid3, 20, "A".to_string());
        undo_log.write(tid5, 30, "B".to_string());
        undo_log.write(tid4, 30, "C".to_string());
        undo_log.write(tid4, 50, "D".to_string());

        checkpoint(&mut undo_log, &mut file);
        commit(&mut undo_log, &mut file, tid4).unwrap();
        commit(&mut undo_log, &mut file, tid3).unwrap();
        commit(&mut undo_log, &mut file, tid5).unwrap();

        let tid6 = undo_log.start();
        undo_log.write(tid6, 60, "E".to_string());
        undo_log.write(tid6, 30, "F".to_string());

        store.set_flush_err(true);
        assert!(commit(&mut undo_log, &mut file, tid6).is_err());
        store.set_flush_err(false);
    }

    // Create a new undo log which should automatically recover data.
    let mut undo_log = open(&mut file, store.clone()).unwrap();
    assert_eq!(undo_log.start(), 7);

    assert_eq!(store.get(&20), Some("A".to_string()));
    assert_eq!(store.get(&30), Some("C".to_string()));
    assert_eq!(store.get(&50), Some("D".to_string()));
    assert_eq!(store.get(&60), None);
}

#[test]
fn test_undo_commit_goes_in_steps() {
    let mut file = Vec::new();
    let store: MyStore<MyLogData> = MyStore::new();
    let mut undo_log = open(&mut file, store.clone()).unwrap();
    assert!(file.is_empty());
    assert_eq!(undo_log.last_tid(), 0);

    // A transaction that is not active commits to nothing.
    match undo_log.commit(5).unwrap() {
        Progress::Done(bytes) => assert!(bytes.is_empty()),
        Progress::More(_) => panic!("nothing to write"),
    }

    let tid = undo_log.start();
    assert!(undo_log.is_active(tid));
    undo_log.write(tid, 20, "Hello".to_string());
    undo_log.write(7, 21, "Not written".to_string());
    assert_eq!(store.get(&21), None);
    assert_eq!(undo_log.store().get(&20), Some("Hello".to_string()));

    // First the staged entries, which must be written before the store is
    // flushed.
    match undo_log.commit(tid).unwrap() {
        Progress::More(bytes) => file.extend_from_slice(&bytes),
        Progress::Done(_) => panic!("the store was flushed too early"),
    }
    assert_eq!(
        read_all(&file),
        vec![
            SingleLogEntry::Transaction(Transaction::Start(1)),
            SingleLogEntry::InsertEntry(InsertEntry { tid: 1, key: 20 }),
        ]
    );
    assert!(undo_log.is_active(tid));
    assert!(undo_log.entries().is_empty());

    // Then the commit entry.
    match undo_log.commit(tid).unwrap() {
        Progress::Done(bytes) => file.extend_from_slice(&bytes),
        Progress::More(_) => panic!("nothing was staged"),
    }
    assert!(!undo_log.is_active(tid));
    assert_eq!(read_all(&file).len(), 3);
    assert_eq!(read_all(&file)[2], SingleLogEntry::Transaction(Transaction::Commit(1)));
    // Start (1 + 1 + 8), insert (1 + 8 + 4) and commit (1 + 1 + 8), seven
    // bytes of header each.
    assert_eq!(file.len(), 17 + 20 + 17);
}

#[test]
fn test_undo_checkpoint_is_begun_once() {
    let mut file = Vec::new();
    let store: MyStore<MyLogData> = MyStore::new();
    let mut undo_log = open(&mut file, store.clone()).unwrap();
    let tid1 = undo_log.start();
    let tid2 = undo_log.start();
    checkpoint(&mut undo_log, &mut file);
    assert!(undo_log.checkpoint().is_empty());
    let tid3 = undo_log.start();
    commit(&mut undo_log, &mut file, tid3).unwrap();
    commit(&mut undo_log, &mut file, tid1).unwrap();
    assert!(undo_log.checkpoint().is_empty());
    commit(&mut undo_log, &mut file, tid2).unwrap();
    // The checkpoint has ended: the next one begins, with no transaction,
    // and no commit ends it.
    checkpoint(&mut undo_log, &mut file);
    assert_eq!(
        read_all(&file),
        vec![
            SingleLogEntry::Transaction(Transaction::Start(1)),
            SingleLogEntry::Transaction(Transaction::Start(2)),
            SingleLogEntry::Checkpoint(Checkpoint::Begin(vec![1, 2])),
            SingleLogEntry::Transaction(Transaction::Start(3)),
            SingleLogEntry::Transaction(Transaction::Commit(3)),
            SingleLogEntry::Transaction(Transaction::Commit(1)),
            SingleLogEntry::Transaction(Transaction::Commit(2)),
            SingleLogEntry::Checkpoint(Checkpoint::End),
            SingleLogEntry::Checkpoint(Checkpoint::Begin(vec![])),
        ]
    );
}

#[test]
fn test_undo_recovery_fails_with_the_store() {
    let mut file = Vec::new();
    let mut store: MyStore<MyLogData> = MyStore::new();
    store.set_flush_err(true);
    let err = open(&mut file, store.clone()).err().unwrap();
    assert_eq!(err.kind(), io::ErrorKind::Interrupted);
}

#[test]
fn test_undo_recovery_of_a_damaged_log() {
    let mut file = Vec::new();
    let store: MyStore<MyLogData> = MyStore::new();
    {
        let mut undo_log = open(&mut file, store.clone()).unwrap();
        let tid = undo_log.start();
        undo_log.write(tid, 1, "one".to_string());
        undo_log.write(tid, 1, "two".to_string());
        match undo_log.commit(tid).unwrap() {
            Progress::More(bytes) => file.extend_from_slice(&bytes),
            Progress::Done(_) => panic!("the store was flushed too early"),
        }
    }
    assert_eq!(store.get(&1), Some("two".to_string()));
    // Damage the second entry: the block ends there for every reader, so
    // recovery sees the start entry alone and takes nothing back.
    file[17 + 10] ^= 0x55;
    let len = file.len();
    let undo_log = open(&mut file, store.clone()).unwrap();
    assert_eq!(file.len(), len);
    assert_eq!(undo_log.last_tid(), 0);
    assert_eq!(store.get(&1), Some("two".to_string()));
    assert_eq!(undo_log.into_store().get(&1), Some("two".to_string()));
    assert_eq!(
        read_all(&file),
        vec![SingleLogEntry::Transaction(Transaction::Start(1))]
    );
}

#[test]
fn test_undo_recovery_after_a_failed_commit() {
    let mut file = Vec::new();
    let mut store: MyStore<MyLogData> = MyStore::new();
    {
        let mut undo_log = open(&mut file, store.clone()).unwrap();
        let tid = undo_log.start();
        undo_log.write(tid, 20, "Hello".to_string());
        undo_log.write(tid, 20, "World".to_string());
        commit(&mut undo_log, &mut file, tid).unwrap();
        assert_eq!(store.get(&20), Some("World".to_string()));

        let tid = undo_log.start();
        undo_log.write(tid, 20, "World2".to_string());
        undo_log.write(tid, 30, "Hello".to_string());
        store.set_flush_err(true);
        assert!(commit(&mut undo_log, &mut file, tid).is_err());
        store.set_flush_err(false);
        assert_eq!(store.get(&20), Some("World2".to_string()));
        assert!(undo_log.is_active(tid));
    }

    let undo_log = open(&mut file, store.clone()).unwrap();
    assert_eq!(undo_log.last_tid(), 2);
    assert_eq!(
        read_all(&file),
        vec![
            SingleLogEntry::Transaction(Transaction::Start(1)),
            SingleLogEntry::InsertEntry(InsertEntry { tid: 1, key: 20 }),
            SingleLogEntry::ChangeEntry(ChangeEntry {
                tid: 1,
                key: 20,
                value: "Hello".to_string(),
            }),
            SingleLogEntry::Transaction(Transaction::Commit(1)),
            SingleLogEntry::Transaction(Transaction::Start(2)),
            SingleLogEntry::ChangeEntry(ChangeEntry {
                tid: 2,
                key: 20,
                value: "World".to_string(),
            }),
            SingleLogEntry::InsertEntry(InsertEntry { tid: 2, key: 30 }),
            SingleLogEntry::Transaction(Transaction::Abort(2)),
        ]
    );
    // The store holds what it held before the second transaction.
    assert_eq!(store.get(&20), Some("World".to_string()));
    assert_eq!(store.get(&30), None);
}
