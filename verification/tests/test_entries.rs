use disk_utils::wal::entries::{
    ChangeEntry, Checkpoint, InsertEntry, SingleLogEntry, Transaction,
};
use disk_utils::wal::LogData;
use disk_utils::{DecodeError, Serializable};

#[derive(Clone, PartialEq, Debug)]
struct MyLogData;

impl LogData for MyLogData {
    type Key = i32;
    type Value = String;
}

#[test]
fn test_insert_entry() {
    let entry: InsertEntry<MyLogData> = InsertEntry { tid: 123, key: 20 };

    let mut bytes = Vec::new();
    entry.serialize(&mut bytes);

    let test_entry = InsertEntry::deserialize(&mut &bytes[..]).unwrap();
    assert_eq!(entry, test_entry);
}

#[test]
fn test_change_entry() {
    let entry: ChangeEntry<MyLogData> = ChangeEntry {
        tid: 123,
        key: 20,
        value: "Hello world!".to_string(),
    };

    let mut bytes = Vec::new();
    entry.serialize(&mut bytes);

    let test_entry = ChangeEntry::deserialize(&mut &bytes[..]).unwrap();
    assert_eq!(entry, test_entry);
}

#[test]
fn test_checkpoint() {
    let checkpoints = vec![Checkpoint::Begin(vec![20, 30]), Checkpoint::End];

    for checkpoint in checkpoints {
        let mut bytes = Vec::new();
        checkpoint.serialize(&mut bytes);

        let test_checkpoint = Checkpoint::deserialize(&mut &bytes[..]).unwrap();
        assert_eq!(checkpoint, test_checkpoint);
    }
}

fn encoded<S: Serializable>(value: &S) -> Vec<u8> {
    let mut bytes = Vec::new();
    value.serialize(&mut bytes);
    bytes
}

#[test]
fn test_integer_encodings() {
    assert_eq!(encoded(&0x0102_0304_0506_0708u64), vec![1, 2, 3, 4, 5, 6, 7, 8]);
    assert_eq!(encoded(&u64::MAX), vec![255; 8]);
    assert_eq!(encoded(&1u64), vec![0, 0, 0, 0, 0, 0, 0, 1]);
    assert_eq!(encoded(&0xDEAD_BEEFu32), vec![0xDE, 0xAD, 0xBE, 0xEF]);
    assert_eq!(encoded(&1i32), vec![0, 0, 0, 1]);
    assert_eq!(encoded(&-1i32), vec![255, 255, 255, 255]);
    assert_eq!(encoded(&-2i32), vec![255, 255, 255, 254]);
    assert_eq!(encoded(&i32::MIN), vec![0x80, 0, 0, 0]);
    assert_eq!(encoded(&i32::MAX), vec![0x7F, 255, 255, 255]);
}

#[test]
fn test_integer_decodings() {
    let bytes = [1u8, 2, 3, 4, 5, 6, 7, 8, 9];
    let mut reader = &bytes[..];
    assert_eq!(u64::deserialize(&mut reader), Ok(0x0102_0304_0506_0708));
    assert_eq!(reader, &[9u8][..]);
    assert_eq!(u64::deserialize(&mut reader), Err(DecodeError::ShortRead));

    let mut reader = &bytes[..];
    assert_eq!(u32::deserialize(&mut reader), Ok(0x0102_0304));
    assert_eq!(i32::deserialize(&mut reader), Ok(0x0506_0708));
    assert_eq!(i32::deserialize(&mut reader), Err(DecodeError::ShortRead));

    assert_eq!(i32::deserialize(&mut &[255u8, 255, 255, 133][..]), Ok(-123));
    assert_eq!(i32::deserialize(&mut &[0x80u8, 0, 0, 0][..]), Ok(i32::MIN));
    for value in [0u64, 1, 255, 256, 65535, 1 << 40, u64::MAX - 1, u64::MAX] {
        assert_eq!(u64::deserialize(&mut &encoded(&value)[..]), Ok(value));
    }
    for value in [0i32, 1, -1, 127, -128, 65536, i32::MAX, i32::MIN] {
        assert_eq!(i32::deserialize(&mut &encoded(&value)[..]), Ok(value));
    }
    for value in [0u32, 1, 255, 256, 0x8000_0000, u32::MAX] {
        assert_eq!(u32::deserialize(&mut &encoded(&value)[..]), Ok(value));
    }
}

#[test]
fn test_string_encoding() {
    assert_eq!(encoded(&"".to_string()), vec![0, 0, 0, 0]);
    assert_eq!(encoded(&"abc".to_string()), vec![0, 0, 0, 3, b'a', b'b', b'c']);
    // Two characters, five bytes of UTF-8.
    assert_eq!(
        encoded(&"\u{e9}\u{20ac}".to_string()),
        vec![0, 0, 0, 5, 0xC3, 0xA9, 0xE2, 0x82, 0xAC]
    );

    let mut bytes = encoded(&"Hello world!".to_string());
    bytes.extend_from_slice(&[1, 2, 3]);
    let mut reader = &bytes[..];
    assert_eq!(String::deserialize(&mut reader), Ok("Hello world!".to_string()));
    assert_eq!(reader, &[1u8, 2, 3][..]);
}

#[test]
fn test_string_errors() {
    assert_eq!(String::deserialize(&mut &[0u8, 0, 0][..]), Err(DecodeError::ShortRead));
    assert_eq!(String::deserialize(&mut &[0u8, 0, 0, 2, b'a'][..]), Err(DecodeError::ShortRead));
    assert_eq!(
        String::deserialize(&mut &[0u8, 0, 0, 2, 0xC3, 0x28][..]),
        Err(DecodeError::InvalidData)
    );
    assert_eq!(String::deserialize(&mut &[0u8, 0, 0, 1, 0xFF][..]), Err(DecodeError::InvalidData));
}

#[test]
fn test_transaction_encoding() {
    assert_eq!(encoded(&Transaction::Start(1)), vec![0, 0, 0, 0, 0, 0, 0, 0, 1]);
    assert_eq!(encoded(&Transaction::Commit(258)), vec![1, 0, 0, 0, 0, 0, 0, 1, 2]);
    assert_eq!(encoded(&Transaction::Abort(u64::MAX)), vec![2, 255, 255, 255, 255, 255, 255, 255, 255]);
    for transaction in [Transaction::Start(7), Transaction::Commit(8), Transaction::Abort(9)] {
        assert_eq!(Transaction::deserialize(&mut &encoded(&transaction)[..]), Ok(transaction));
    }
}

#[test]
fn test_transaction_errors() {
    assert_eq!(Transaction::deserialize(&mut &[][..]), Err(DecodeError::ShortRead));
    assert_eq!(Transaction::deserialize(&mut &[0u8, 1, 2, 3][..]), Err(DecodeError::ShortRead));
    // A short read comes before the look at the tag.
    assert_eq!(Transaction::deserialize(&mut &[9u8, 1, 2, 3][..]), Err(DecodeError::ShortRead));
    assert_eq!(
        Transaction::deserialize(&mut &[3u8, 0, 0, 0, 0, 0, 0, 0, 1][..]),
        Err(DecodeError::InvalidData)
    );
}

#[test]
fn test_checkpoint_encoding() {
    assert_eq!(encoded(&Checkpoint::End), vec![1]);
    assert_eq!(encoded(&Checkpoint::Begin(vec![])), vec![0, 0, 0, 0, 0]);
    assert_eq!(
        encoded(&Checkpoint::Begin(vec![20, 30])),
        vec![0, 0, 0, 0, 2, 0, 0, 0, 0, 0, 0, 0, 20, 0, 0, 0, 0, 0, 0, 0, 30]
    );
    let many: Vec<u64> = (0..1000u64).map(|i| i * i).collect();
    let checkpoint = Checkpoint::Begin(many);
    assert_eq!(encoded(&checkpoint).len(), 5 + 8 * 1000);
    assert_eq!(Checkpoint::deserialize(&mut &encoded(&checkpoint)[..]), Ok(checkpoint));
}

#[test]
fn test_checkpoint_errors() {
    assert_eq!(Checkpoint::deserialize(&mut &[][..]), Err(DecodeError::ShortRead));
    assert_eq!(Checkpoint::deserialize(&mut &[2u8][..]), Err(DecodeError::InvalidData));
    assert_eq!(Checkpoint::deserialize(&mut &[0u8, 0, 0][..]), Err(DecodeError::ShortRead));
    // Two ids announced, one there.
    assert_eq!(
        Checkpoint::deserialize(&mut &[0u8, 0, 0, 0, 2, 0, 0, 0, 0, 0, 0, 0, 20][..]),
        Err(DecodeError::ShortRead)
    );
    // A count below zero.
    assert_eq!(
        Checkpoint::deserialize(&mut &[0u8, 255, 255, 255, 255][..]),
        Err(DecodeError::InvalidData)
    );
}

#[test]
fn test_entry_encodings() {
    let insert: InsertEntry<MyLogData> = InsertEntry { tid: 1, key: 20 };
    assert_eq!(encoded(&insert), vec![0, 0, 0, 0, 0, 0, 0, 1, 0, 0, 0, 20]);
    let change: ChangeEntry<MyLogData> = ChangeEntry { tid: 2, key: -1, value: "Hi".to_string() };
    assert_eq!(
        encoded(&change),
        vec![0, 0, 0, 0, 0, 0, 0, 2, 255, 255, 255, 255, 0, 0, 0, 2, b'H', b'i']
    );

    let entries: Vec<SingleLogEntry<MyLogData>> = vec![
        SingleLogEntry::InsertEntry(insert),
        SingleLogEntry::ChangeEntry(change),
        SingleLogEntry::Transaction(Transaction::Commit(3)),
        SingleLogEntry::Checkpoint(Checkpoint::Begin(vec![4, 5])),
        SingleLogEntry::Checkpoint(Checkpoint::End),
    ];
    let tags: Vec<u8> = entries.iter().map(|entry| encoded(entry)[0]).collect();
    assert_eq!(tags, vec![0, 1, 2, 3, 3]);
    assert_eq!(encoded(&entries[0])[1..], [0, 0, 0, 0, 0, 0, 0, 1, 0, 0, 0, 20]);
    assert_eq!(encoded(&entries[2]), vec![2, 1, 0, 0, 0, 0, 0, 0, 0, 3]);
    assert_eq!(encoded(&entries[4]), vec![3, 1]);
    for entry in entries {
        let mut bytes = encoded(&entry);
        bytes.push(77);
        let mut reader = &bytes[..];
        assert_eq!(SingleLogEntry::<MyLogData>::deserialize(&mut reader), Ok(entry));
        assert_eq!(reader, &[77u8][..]);
    }
}

#[test]
fn test_entry_errors() {
    assert_eq!(SingleLogEntry::<MyLogData>::deserialize(&mut &[][..]), Err(DecodeError::ShortRead));
    assert_eq!(
        SingleLogEntry::<MyLogData>::deserialize(&mut &[4u8, 0, 0][..]),
        Err(DecodeError::InvalidData)
    );
    assert_eq!(
        SingleLogEntry::<MyLogData>::deserialize(&mut &[0u8, 0, 0][..]),
        Err(DecodeError::ShortRead)
    );
    assert_eq!(
        InsertEntry::<MyLogData>::deserialize(&mut &[0u8, 0, 0, 0, 0, 0, 0, 1, 0, 0][..]),
        Err(DecodeError::ShortRead)
    );
    assert_eq!(
        ChangeEntry::<MyLogData>::deserialize(
            &mut &[0u8, 0, 0, 0, 0, 0, 0, 1, 0, 0, 0, 20, 0, 0, 0, 1, 0x80][..]
        ),
        Err(DecodeError::InvalidData)
    );
    assert_eq!(
        SingleLogEntry::<MyLogData>::deserialize(&mut &[2u8, 5, 0, 0, 0, 0, 0, 0, 0, 1][..]),
        Err(DecodeError::InvalidData)
    );
}

#[test]
fn test_failed_reads_leave_the_reader() {
    let bytes = [2u8, 0, 0, 0, 0, 0, 0, 1];
    let mut reader = &bytes[..];
    assert_eq!(Transaction::deserialize(&mut reader), Err(DecodeError::ShortRead));
    assert_eq!(reader, &bytes[..]);
    assert_eq!(SingleLogEntry::<MyLogData>::deserialize(&mut reader), Err(DecodeError::ShortRead));
    assert_eq!(reader, &bytes[..]);
    assert_eq!(Checkpoint::deserialize(&mut reader), Err(DecodeError::InvalidData));
    assert_eq!(reader, &bytes[..]);
    assert_eq!(String::deserialize(&mut reader), Err(DecodeError::ShortRead));
    assert_eq!(reader, &bytes[..]);
    assert_eq!(ChangeEntry::<MyLogData>::deserialize(&mut reader), Err(DecodeError::ShortRead));
    assert_eq!(reader, &bytes[..]);
    assert_eq!(u64::deserialize(&mut reader), Ok(0x0200_0000_0000_0001));
    assert!(reader.is_empty());

    let bytes = [0u8, 0, 0, 0, 2, 0, 0, 0, 0, 0, 0, 0, 20, 1, 2];
    let mut reader = &bytes[..];
    assert_eq!(Checkpoint::deserialize(&mut reader), Err(DecodeError::ShortRead));
    assert_eq!(reader, &bytes[..]);
    let bytes = [0u8, 0, 0, 2, 0xC3, 0x28, 7];
    let mut reader = &bytes[..];
    assert_eq!(String::deserialize(&mut reader), Err(DecodeError::InvalidData));
    assert_eq!(reader, &bytes[..]);
}
