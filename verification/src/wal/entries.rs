use crate::wal::serializable::{
    i32_be_bytes, i32_from_be, i32_from_bits, lemma_i32_be_round_trip,
    lemma_u64_be_round_trip, u64_be_bytes, u64_from_be,
};
use crate::wal::LogData;
use crate::{DecodeError, Serializable};
use vstd::prelude::*;

verus! {

/// A step in the life of a transaction, with the transaction's id.
#[derive(Clone, Copy, Debug, PartialEq, Eq, Structural)]
pub enum Transaction {
    Start(u64),
    Commit(u64),
    Abort(u64),
}

impl View for Transaction {
    type V = Transaction;

    open spec fn view(&self) -> Transaction {
        *self
    }
}

impl Transaction {
    /// The id of the transaction.
    pub open spec fn tid(self) -> u64 {
        match self {
            Transaction::Start(tid) => tid,
            Transaction::Commit(tid) => tid,
            Transaction::Abort(tid) => tid,
        }
    }

    /// The byte that tells the step: 0 for a start, 1 for a commit, 2 for
    /// an abort.
    pub open spec fn tag(self) -> u8 {
        match self {
            Transaction::Start(_) => 0,
            Transaction::Commit(_) => 1,
            Transaction::Abort(_) => 2,
        }
    }
}

impl Serializable for Transaction {
    open spec fn encode(value: Transaction) -> Seq<u8> {
        seq![value.tag()] + u64_be_bytes(value.tid())
    }

    open spec fn decode(bytes: Seq<u8>) -> Result<(Transaction, nat), DecodeError> {
        if bytes.len() < 9 {
            Err(DecodeError::ShortRead)
        } else if bytes[0] == 0 {
            Ok((Transaction::Start(u64_from_be(bytes.skip(1))), 9))
        } else if bytes[0] == 1 {
            Ok((Transaction::Commit(u64_from_be(bytes.skip(1))), 9))
        } else if bytes[0] == 2 {
            Ok((Transaction::Abort(u64_from_be(bytes.skip(1))), 9))
        } else {
            Err(DecodeError::InvalidData)
        }
    }

    open spec fn encodable(value: Transaction) -> bool {
        true
    }

    proof fn lemma_decode_encode(value: Transaction, rest: Seq<u8>) {
        let bytes = Self::encode(value) + rest;
        lemma_u64_be_round_trip(value.tid(), rest);
        assert(bytes.skip(1) =~= u64_be_bytes(value.tid()) + rest);
    }

    proof fn lemma_decode_length(bytes: Seq<u8>) {
    }

    fn serialize(&self, bytes: &mut Vec<u8>) {
        let (tag, tid): (u8, u64) = match *self {
            Transaction::Start(tid) => (0, tid),
            Transaction::Commit(tid) => (1, tid),
            Transaction::Abort(tid) => (2, tid),
        };
        bytes.push(tag);
        tid.serialize(bytes);
        assert(bytes@ =~= old(bytes)@ + Self::encode(self@));
    }

    fn deserialize(bytes: &mut &[u8]) -> (r: Result<Transaction, DecodeError>) {
        let saved: &[u8] = *bytes;
        let ghost start = bytes@;
        let head = crate::wal::serializable::take_bytes(bytes, 1)?;
        let tag = head[0];
        let tid = match u64::deserialize(bytes) {
            Ok(tid) => tid,
            Err(e) => {
                *bytes = saved;
                return Err(e);
            },
        };
        assert(bytes@ =~= start.skip(9));
        match tag {
            0 => Ok(Transaction::Start(tid)),
            1 => Ok(Transaction::Commit(tid)),
            2 => Ok(Transaction::Abort(tid)),
            _ => {
                *bytes = saved;
                Err(DecodeError::InvalidData)
            },
        }
    }
}

/// The two marks of a checkpoint. `Begin` lists the transactions that were
/// active when the checkpoint began.
#[derive(Clone, Debug, PartialEq)]
pub enum Checkpoint {
    Begin(Vec<u64>),
    End,
}

/// A checkpoint mark as a mathematical value.
pub enum CheckpointView {
    Begin(Seq<u64>),
    End,
}

impl View for Checkpoint {
    type V = CheckpointView;

    open spec fn view(&self) -> CheckpointView {
        match self {
            Checkpoint::Begin(tids) => CheckpointView::Begin(tids@),
            Checkpoint::End => CheckpointView::End,
        }
    }
}

/// The count of ids as a `Begin` mark holds it: the count cut to 32 bits
/// and read as a signed number.
pub open spec fn count_prefix(count: nat) -> i32 {
    i32_from_bits((count % 0x1_0000_0000) as u32)
}

/// The ids one after the other, eight bytes each, most significant first.
pub open spec fn encode_tids(tids: Seq<u64>) -> Seq<u8> {
    Seq::new(8 * tids.len(), |j: int| u64_be_bytes(tids[j / 8])[j % 8])
}

/// The `count` ids at the front of `bytes`.
pub open spec fn decode_tids(bytes: Seq<u8>, count: nat) -> Seq<u64> {
    Seq::new(count, |i: int| u64_from_be(bytes.skip(8 * i)))
}

/// Reading ids back: the ids are read from their bytes as they were,
/// whatever follows.
pub proof fn lemma_tids_round_trip(tids: Seq<u64>, rest: Seq<u8>)
    ensures
        encode_tids(tids).len() == 8 * tids.len(),
        decode_tids(encode_tids(tids) + rest, tids.len()) == tids,
{
    let bytes = encode_tids(tids) + rest;
    assert forall|i: int| 0 <= i < tids.len() implies u64_from_be(bytes.skip(8 * i))
        == tids[i] by {
        let tail = bytes.skip(8 * i + 8);
        lemma_u64_be_round_trip(tids[i], tail);
        assert(bytes.skip(8 * i) =~= u64_be_bytes(tids[i]) + tail) by {
            assert forall|j: int| 0 <= j < 8 implies bytes.skip(8 * i)[j] == u64_be_bytes(
                tids[i],
            )[j] by {
                assert((8 * i + j) / 8 == i);
                assert((8 * i + j) % 8 == j);
            }
        }
    }
    assert(decode_tids(bytes, tids.len()) =~= tids);
}

impl Serializable for Checkpoint {
    open spec fn encode(value: CheckpointView) -> Seq<u8> {
        match value {
            CheckpointView::Begin(tids) => seq![0u8] + i32_be_bytes(count_prefix(tids.len()))
                + encode_tids(tids),
            CheckpointView::End => seq![1u8],
        }
    }

    open spec fn decode(bytes: Seq<u8>) -> Result<(CheckpointView, nat), DecodeError> {
        if bytes.len() < 1 {
            Err(DecodeError::ShortRead)
        } else if bytes[0] == 0 {
            if bytes.len() < 5 {
                Err(DecodeError::ShortRead)
            } else if i32_from_be(bytes.skip(1)) < 0 {
                Err(DecodeError::InvalidData)
            } else if bytes.len() < 5 + 8 * i32_from_be(bytes.skip(1)) {
                Err(DecodeError::ShortRead)
            } else {
                Ok(
                    (
                        CheckpointView::Begin(
                            decode_tids(bytes.skip(5), i32_from_be(bytes.skip(1)) as nat),
                        ),
                        (5 + 8 * i32_from_be(bytes.skip(1))) as nat,
                    ),
                )
            }
        } else if bytes[0] == 1 {
            Ok((CheckpointView::End, 1))
        } else {
            Err(DecodeError::InvalidData)
        }
    }

    open spec fn encodable(value: CheckpointView) -> bool {
        match value {
            CheckpointView::Begin(tids) => tids.len() <= i32::MAX,
            CheckpointView::End => true,
        }
    }

    proof fn lemma_decode_encode(value: CheckpointView, rest: Seq<u8>) {
        let bytes = Self::encode(value) + rest;
        match value {
            CheckpointView::Begin(tids) => {
                let count = count_prefix(tids.len());
                assert(count == tids.len());
                lemma_i32_be_round_trip(count, encode_tids(tids) + rest);
                lemma_tids_round_trip(tids, rest);
                assert(bytes.skip(1) =~= i32_be_bytes(count) + (encode_tids(tids) + rest));
                assert(bytes.skip(5) =~= encode_tids(tids) + rest);
            },
            CheckpointView::End => {},
        }
    }

    proof fn lemma_decode_length(bytes: Seq<u8>) {
    }

    fn serialize(&self, bytes: &mut Vec<u8>) {
        match self {
            Checkpoint::Begin(transactions) => {
                bytes.push(0);
                let len = transactions.len();
                let low: u32 = #[verifier::truncate]
                (len as u32);
                let count: i32 = #[verifier::truncate]
                (low as i32);
                assert(low == (len as nat % 0x1_0000_0000) as u32) by (bit_vector)
                    requires
                        low == len as u32,
                ;
                assert(low < 0x8000_0000 ==> count as i64 == low as i64) by (bit_vector)
                    requires
                        count == low as i32,
                ;
                assert(low >= 0x8000_0000 ==> count as i64 == low as i64 - 0x1_0000_0000)
                    by (bit_vector)
                    requires
                        count == low as i32,
                ;
                assert(count == count_prefix(len as nat));
                count.serialize(bytes);
                let ghost before = bytes@;
                let mut i: usize = 0;
                while i < len
                    invariant
                        len == transactions@.len(),
                        i <= len,
                        bytes@ == before + encode_tids(transactions@.take(i as int)),
                    decreases len - i,
                {
                    let ghost sofar = bytes@;
                    transactions[i].serialize(bytes);
                    assert(bytes@ =~= before + encode_tids(transactions@.take(i + 1))) by {
                        let a = encode_tids(transactions@.take(i as int));
                        let b = encode_tids(transactions@.take(i + 1));
                        assert(b =~= a + u64_be_bytes(transactions@[i as int])) by {
                            assert forall|j: int| 0 <= j < b.len() implies b[j] == (a
                                + u64_be_bytes(transactions@[i as int]))[j] by {
                                if j >= 8 * i {
                                    assert(j / 8 == i);
                                    assert(j % 8 == j - 8 * i);
                                } else {
                                    assert(j / 8 < i);
                                }
                            }
                        }
                    }
                    i += 1;
                }
                assert(transactions@.take(len as int) =~= transactions@);
                assert(bytes@ =~= old(bytes)@ + Self::encode(self@));
            },
            Checkpoint::End => {
                bytes.push(1);
                assert(bytes@ =~= old(bytes)@ + Self::encode(self@));
            },
        }
    }

    fn deserialize(bytes: &mut &[u8]) -> (r: Result<Checkpoint, DecodeError>) {
        let saved: &[u8] = *bytes;
        let ghost start = bytes@;
        let head = crate::wal::serializable::take_bytes(bytes, 1)?;
        match head[0] {
            0 => {
                let count = match i32::deserialize(bytes) {
                    Ok(count) => count,
                    Err(e) => {
                        *bytes = saved;
                        return Err(e);
                    },
                };
                if count < 0 {
                    *bytes = saved;
                    return Err(DecodeError::InvalidData);
                }
                assert(bytes@ =~= start.skip(5));
                let mut transactions: Vec<u64> = Vec::new();
                let mut i: i32 = 0;
                while i < count
                    invariant
                        0 <= i <= count,
                        start == old(bytes)@,
                        saved@ == start,
                        start.len() >= 5,
                        start[0] == 0,
                        count == i32_from_be(start.skip(1)),
                        bytes@.len() + 5 + 8 * i == start.len(),
                        bytes@ =~= start.skip(5 + 8 * i),
                        transactions@ =~= decode_tids(start.skip(5), i as nat),
                    decreases count - i,
                {
                    match u64::deserialize(bytes) {
                        Ok(tid) => {
                            assert(start.skip(5).skip(8 * i) =~= start.skip(5 + 8 * i));
                            transactions.push(tid);
                        },
                        Err(e) => {
                            *bytes = saved;
                            return Err(e);
                        },
                    }
                    i += 1;
                }
                Ok(Checkpoint::Begin(transactions))
            },
            1 => Ok(Checkpoint::End),
            _ => {
                *bytes = saved;
                Err(DecodeError::InvalidData)
            },
        }
    }
}

/// The note that a transaction created a key.
#[derive(Clone, Debug, PartialEq)]
pub struct InsertEntry<Data: LogData> {
    pub tid: u64,
    pub key: Data::Key,
}

/// An insert entry as a mathematical value.
pub struct InsertEntryView<K> {
    pub tid: u64,
    pub key: K,
}

impl<Data: LogData> View for InsertEntry<Data> {
    type V = InsertEntryView<<Data::Key as View>::V>;

    open spec fn view(&self) -> Self::V {
        InsertEntryView { tid: self.tid, key: self.key@ }
    }
}

impl<Data: LogData> Serializable for InsertEntry<Data> {
    open spec fn encode(value: Self::V) -> Seq<u8> {
        u64_be_bytes(value.tid) + Data::Key::encode(value.key)
    }

    open spec fn decode(bytes: Seq<u8>) -> Result<(Self::V, nat), DecodeError> {
        if bytes.len() < 8 {
            Err(DecodeError::ShortRead)
        } else {
            match Data::Key::decode(bytes.skip(8)) {
                Ok((key, n)) => Ok((InsertEntryView { tid: u64_from_be(bytes), key }, 8 + n)),
                Err(e) => Err(e),
            }
        }
    }

    open spec fn encodable(value: Self::V) -> bool {
        Data::Key::encodable(value.key)
    }

    proof fn lemma_decode_encode(value: Self::V, rest: Seq<u8>) {
        let bytes = Self::encode(value) + rest;
        lemma_u64_be_round_trip(value.tid, Data::Key::encode(value.key) + rest);
        assert(bytes =~= u64_be_bytes(value.tid) + (Data::Key::encode(value.key) + rest));
        assert(bytes.skip(8) =~= Data::Key::encode(value.key) + rest);
        Data::Key::lemma_decode_encode(value.key, rest);
    }

    proof fn lemma_decode_length(bytes: Seq<u8>) {
        if bytes.len() >= 8 {
            Data::Key::lemma_decode_length(bytes.skip(8));
        }
    }

    fn serialize(&self, bytes: &mut Vec<u8>) {
        self.tid.serialize(bytes);
        self.key.serialize(bytes);
        assert(bytes@ =~= old(bytes)@ + Self::encode(self@));
    }

    fn deserialize(bytes: &mut &[u8]) -> (r: Result<InsertEntry<Data>, DecodeError>) {
        let saved: &[u8] = *bytes;
        let ghost start = bytes@;
        let tid = u64::deserialize(bytes)?;
        proof {
            Data::Key::lemma_decode_length(start.skip(8));
        }
        let key = match Data::Key::deserialize(bytes) {
            Ok(key) => key,
            Err(e) => {
                *bytes = saved;
                return Err(e);
            },
        };
        assert(bytes@ =~= start.skip(8 + Data::Key::decode(start.skip(8))->Ok_0.1 as int));
        Ok(InsertEntry { tid, key })
    }
}

/// The note that a transaction wrote a value under a key. An undo log
/// keeps the value from before the write, a redo log the value written.
#[derive(Clone, Debug, PartialEq)]
pub struct ChangeEntry<Data: LogData> {
    pub tid: u64,
    pub key: Data::Key,
    pub value: Data::Value,
}

/// A change entry as a mathematical value.
pub struct ChangeEntryView<K, V> {
    pub tid: u64,
    pub key: K,
    pub value: V,
}

impl<Data: LogData> View for ChangeEntry<Data> {
    type V = ChangeEntryView<<Data::Key as View>::V, <Data::Value as View>::V>;

    open spec fn view(&self) -> Self::V {
        ChangeEntryView { tid: self.tid, key: self.key@, value: self.value@ }
    }
}

impl<Data: LogData> Serializable for ChangeEntry<Data> {
    open spec fn encode(value: Self::V) -> Seq<u8> {
        u64_be_bytes(value.tid) + Data::Key::encode(value.key) + Data::Value::encode(value.value)
    }

    open spec fn decode(bytes: Seq<u8>) -> Result<(Self::V, nat), DecodeError> {
        if bytes.len() < 8 {
            Err(DecodeError::ShortRead)
        } else {
            match Data::Key::decode(bytes.skip(8)) {
                Ok((key, n)) => match Data::Value::decode(bytes.skip(8 + n as int)) {
                    Ok((value, m)) => Ok(
                        (ChangeEntryView { tid: u64_from_be(bytes), key, value }, 8 + n + m),
                    ),
                    Err(e) => Err(e),
                },
                Err(e) => Err(e),
            }
        }
    }

    open spec fn encodable(value: Self::V) -> bool {
        Data::Key::encodable(value.key) && Data::Value::encodable(value.value)
    }

    proof fn lemma_decode_encode(value: Self::V, rest: Seq<u8>) {
        let bytes = Self::encode(value) + rest;
        let key = Data::Key::encode(value.key);
        let val = Data::Value::encode(value.value);
        lemma_u64_be_round_trip(value.tid, key + val + rest);
        assert(bytes =~= u64_be_bytes(value.tid) + (key + val + rest));
        assert(bytes.skip(8) =~= key + (val + rest));
        Data::Key::lemma_decode_encode(value.key, val + rest);
        assert(bytes.skip(8 + key.len() as int) =~= val + rest);
        Data::Value::lemma_decode_encode(value.value, rest);
    }

    proof fn lemma_decode_length(bytes: Seq<u8>) {
        if bytes.len() >= 8 {
            Data::Key::lemma_decode_length(bytes.skip(8));
            if let Ok((_, n)) = Data::Key::decode(bytes.skip(8)) {
                Data::Value::lemma_decode_length(bytes.skip(8 + n as int));
            }
        }
    }

    fn serialize(&self, bytes: &mut Vec<u8>) {
        self.tid.serialize(bytes);
        self.key.serialize(bytes);
        self.value.serialize(bytes);
        assert(bytes@ =~= old(bytes)@ + Self::encode(self@));
    }

    fn deserialize(bytes: &mut &[u8]) -> (r: Result<ChangeEntry<Data>, DecodeError>) {
        let saved: &[u8] = *bytes;
        let ghost start = bytes@;
        let tid = u64::deserialize(bytes)?;
        proof {
            Data::Key::lemma_decode_length(start.skip(8));
        }
        let key = match Data::Key::deserialize(bytes) {
            Ok(key) => key,
            Err(e) => {
                *bytes = saved;
                return Err(e);
            },
        };
        let ghost n = Data::Key::decode(start.skip(8))->Ok_0.1 as int;
        assert(bytes@ =~= start.skip(8 + n as int));
        proof {
            Data::Value::lemma_decode_length(start.skip(8 + n as int));
        }
        let value = match Data::Value::deserialize(bytes) {
            Ok(value) => value,
            Err(e) => {
                *bytes = saved;
                return Err(e);
            },
        };
        assert(bytes@ =~= start.skip(
            8 + n as int + Data::Value::decode(start.skip(8 + n as int))->Ok_0.1 as int,
        ));
        Ok(ChangeEntry { tid, key, value })
    }
}

/// An entry of an undo log or a redo log.
#[derive(Clone, Debug, PartialEq)]
pub enum SingleLogEntry<Data: LogData> {
    InsertEntry(InsertEntry<Data>),
    ChangeEntry(ChangeEntry<Data>),
    Transaction(Transaction),
    Checkpoint(Checkpoint),
}

/// A log entry as a mathematical value.
pub enum LogEntryView<K, V> {
    InsertEntry(InsertEntryView<K>),
    ChangeEntry(ChangeEntryView<K, V>),
    Transaction(Transaction),
    Checkpoint(CheckpointView),
}

impl<Data: LogData> View for SingleLogEntry<Data> {
    type V = LogEntryView<<Data::Key as View>::V, <Data::Value as View>::V>;

    open spec fn view(&self) -> Self::V {
        match self {
            SingleLogEntry::InsertEntry(entry) => LogEntryView::InsertEntry(entry@),
            SingleLogEntry::ChangeEntry(entry) => LogEntryView::ChangeEntry(entry@),
            SingleLogEntry::Transaction(entry) => LogEntryView::Transaction(entry@),
            SingleLogEntry::Checkpoint(entry) => LogEntryView::Checkpoint(entry@),
        }
    }
}

impl<Data: LogData> Serializable for SingleLogEntry<Data> {
    open spec fn encode(value: Self::V) -> Seq<u8> {
        match value {
            LogEntryView::InsertEntry(entry) => seq![0u8] + InsertEntry::<Data>::encode(entry),
            LogEntryView::ChangeEntry(entry) => seq![1u8] + ChangeEntry::<Data>::encode(entry),
            LogEntryView::Transaction(entry) => seq![2u8] + Transaction::encode(entry),
            LogEntryView::Checkpoint(entry) => seq![3u8] + Checkpoint::encode(entry),
        }
    }

    open spec fn decode(bytes: Seq<u8>) -> Result<(Self::V, nat), DecodeError> {
        if bytes.len() < 1 {
            Err(DecodeError::ShortRead)
        } else if bytes[0] == 0 {
            match InsertEntry::<Data>::decode(bytes.skip(1)) {
                Ok((entry, n)) => Ok((LogEntryView::InsertEntry(entry), 1 + n)),
                Err(e) => Err(e),
            }
        } else if bytes[0] == 1 {
            match ChangeEntry::<Data>::decode(bytes.skip(1)) {
                Ok((entry, n)) => Ok((LogEntryView::ChangeEntry(entry), 1 + n)),
                Err(e) => Err(e),
            }
        } else if bytes[0] == 2 {
            match Transaction::decode(bytes.skip(1)) {
                Ok((entry, n)) => Ok((LogEntryView::Transaction(entry), 1 + n)),
                Err(e) => Err(e),
            }
        } else if bytes[0] == 3 {
            match Checkpoint::decode(bytes.skip(1)) {
                Ok((entry, n)) => Ok((LogEntryView::Checkpoint(entry), 1 + n)),
                Err(e) => Err(e),
            }
        } else {
            Err(DecodeError::InvalidData)
        }
    }

    open spec fn encodable(value: Self::V) -> bool {
        match value {
            LogEntryView::InsertEntry(entry) => InsertEntry::<Data>::encodable(entry),
            LogEntryView::ChangeEntry(entry) => ChangeEntry::<Data>::encodable(entry),
            LogEntryView::Transaction(entry) => Transaction::encodable(entry),
            LogEntryView::Checkpoint(entry) => Checkpoint::encodable(entry),
        }
    }

    proof fn lemma_decode_encode(value: Self::V, rest: Seq<u8>) {
        let bytes = Self::encode(value) + rest;
        match value {
            LogEntryView::InsertEntry(entry) => {
                let inner = InsertEntry::<Data>::encode(entry);
                assert(bytes[0] == 0 && bytes.skip(1) =~= inner + rest);
                assert(InsertEntry::<Data>::decode(bytes.skip(1)) == Ok::<_, DecodeError>(
                    (entry, inner.len()),
                )) by {
                    InsertEntry::<Data>::lemma_decode_encode(entry, rest);
                }
            },
            LogEntryView::ChangeEntry(entry) => {
                let inner = ChangeEntry::<Data>::encode(entry);
                assert(bytes[0] == 1 && bytes.skip(1) =~= inner + rest);
                assert(ChangeEntry::<Data>::decode(bytes.skip(1)) == Ok::<_, DecodeError>(
                    (entry, inner.len()),
                )) by {
                    ChangeEntry::<Data>::lemma_decode_encode(entry, rest);
                }
            },
            LogEntryView::Transaction(entry) => {
                let inner = Transaction::encode(entry);
                assert(bytes[0] == 2 && bytes.skip(1) =~= inner + rest);
                assert(Transaction::decode(bytes.skip(1)) == Ok::<_, DecodeError>(
                    (entry, inner.len()),
                )) by {
                    Transaction::lemma_decode_encode(entry, rest);
                }
            },
            LogEntryView::Checkpoint(entry) => {
                let inner = Checkpoint::encode(entry);
                assert(bytes[0] == 3 && bytes.skip(1) =~= inner + rest);
                assert(Checkpoint::decode(bytes.skip(1)) == Ok::<_, DecodeError>(
                    (entry, inner.len()),
                )) by {
                    Checkpoint::lemma_decode_encode(entry, rest);
                }
            },
        }
    }

    proof fn lemma_decode_length(bytes: Seq<u8>) {
        if bytes.len() >= 1 {
            InsertEntry::<Data>::lemma_decode_length(bytes.skip(1));
            ChangeEntry::<Data>::lemma_decode_length(bytes.skip(1));
            Transaction::lemma_decode_length(bytes.skip(1));
            Checkpoint::lemma_decode_length(bytes.skip(1));
        }
    }

    fn serialize(&self, bytes: &mut Vec<u8>) {
        match self {
            SingleLogEntry::InsertEntry(entry) => {
                bytes.push(0);
                entry.serialize(bytes);
            },
            SingleLogEntry::ChangeEntry(entry) => {
                bytes.push(1);
                entry.serialize(bytes);
            },
            SingleLogEntry::Transaction(entry) => {
                bytes.push(2);
                entry.serialize(bytes);
            },
            SingleLogEntry::Checkpoint(entry) => {
                bytes.push(3);
                entry.serialize(bytes);
            },
        }
        assert(bytes@ =~= old(bytes)@ + Self::encode(self@));
    }

    fn deserialize(bytes: &mut &[u8]) -> (r: Result<SingleLogEntry<Data>, DecodeError>) {
        let saved: &[u8] = *bytes;
        let ghost start = bytes@;
        let head = crate::wal::serializable::take_bytes(bytes, 1)?;
        proof {
            Self::lemma_decode_length(start);
        }
        let entry = match head[0] {
            0 => match InsertEntry::<Data>::deserialize(bytes) {
                Ok(entry) => {
                    assert(bytes@ =~= start.skip(
                        1 + InsertEntry::<Data>::decode(start.skip(1))->Ok_0.1 as int,
                    ));
                    Ok(SingleLogEntry::InsertEntry(entry))
                },
                Err(e) => Err(e),
            },
            1 => match ChangeEntry::<Data>::deserialize(bytes) {
                Ok(entry) => {
                    assert(bytes@ =~= start.skip(
                        1 + ChangeEntry::<Data>::decode(start.skip(1))->Ok_0.1 as int,
                    ));
                    Ok(SingleLogEntry::ChangeEntry(entry))
                },
                Err(e) => Err(e),
            },
            2 => match Transaction::deserialize(bytes) {
                Ok(entry) => {
                    assert(bytes@ =~= start.skip(
                        1 + Transaction::decode(start.skip(1))->Ok_0.1 as int,
                    ));
                    Ok(SingleLogEntry::Transaction(entry))
                },
                Err(e) => Err(e),
            },
            3 => match Checkpoint::deserialize(bytes) {
                Ok(entry) => {
                    assert(bytes@ =~= start.skip(
                        1 + Checkpoint::decode(start.skip(1))->Ok_0.1 as int,
                    ));
                    Ok(SingleLogEntry::Checkpoint(entry))
                },
                Err(e) => Err(e),
            },
            _ => Err(DecodeError::InvalidData),
        };
        if entry.is_err() {
            *bytes = saved;
        }
        entry
    }
}

} // verus!
