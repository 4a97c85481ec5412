use crate::wal::calls::{op_calls, Watched};
use crate::wal::entries::{LogEntryView, SingleLogEntry};
use crate::wal::iterator::{
    lemma_next_back_decreases, lemma_next_decreases, lemma_steps_keep_wf, WalIterator,
    WalIteratorView,
};
use crate::wal::record::{Record, RecordType, RecordView, BLOCK_SIZE, HEADER_SIZE};
use crate::wal::tids::TidSet;
use crate::{DecodeError, Serializable};
use std::collections::VecDeque;
use vstd::prelude::*;
use vstd::std_specs::vecdeque::VecDequeAdditionalSpecFns;
use vstd::slice::{slice_subrange, slice_to_vec};

pub mod calls;
pub mod entries;
pub mod iterator;
pub mod layout;
pub mod model;
pub mod reading;
pub mod record;
pub mod redo_log;
pub mod serializable;
pub mod tids;
pub mod undo_log;

verus! {

/// The error of the standard library's input and output, which a store
/// reports when it cannot flush.
#[verifier::external_type_specification]
#[verifier::external_body]
pub struct ExIoError(std::io::Error);

/// The key and value types of the store that a log protects.
pub trait LogData: Clone + PartialEq + core::fmt::Debug {
    type Key: Clone + PartialEq + Eq + core::fmt::Debug + core::hash::Hash + Serializable;

    type Value: Clone + PartialEq + core::fmt::Debug + Serializable;
}

/// The key-value store that a log protects. The log engines own their
/// store and are its only writer.
///
/// Nothing is assumed of how a store behaves: what the engines promise
/// is what they log and what they hand to the store.
pub trait LogStore<Data: LogData> {
    /// The value under `key`, if there is one.
    fn get(&self, key: &Data::Key) -> Option<Data::Value>;

    /// Takes `key` out of the store.
    fn remove(&mut self, key: &Data::Key);

    /// Puts `val` under `key`.
    fn update(&mut self, key: Data::Key, val: Data::Value);

    /// Makes the mappings durable.
    fn flush(&mut self) -> Result<(), std::io::Error>;

    /// Makes the one mapping of `key` to `val` durable.
    fn flush_change(&mut self, key: Data::Key, val: Data::Value) -> Result<(), std::io::Error>;
}

/// What a recovery has a store do.
#[derive(Debug, PartialEq)]
pub enum StoreOp<Data: LogData> {
    /// Take the key out.
    Remove(Data::Key),
    /// Put the value under the key.
    Update(Data::Key, Data::Value),
}

/// What a recovery has a store do, as a mathematical value.
pub enum StoreOpView<K, V> {
    Remove(K),
    Update(K, V),
}

impl<Data: LogData> View for StoreOp<Data> {
    type V = StoreOpView<KeyView<Data>, ValueView<Data>>;

    open spec fn view(&self) -> Self::V {
        match self {
            StoreOp::Remove(key) => StoreOpView::Remove(key@),
            StoreOp::Update(key, value) => StoreOpView::Update(key@, value@),
        }
    }
}

/// The operations as mathematical values.
pub open spec fn op_views<Data: LogData>(ops: Seq<StoreOp<Data>>) -> Seq<
    StoreOpView<KeyView<Data>, ValueView<Data>>,
> {
    Seq::new(ops.len(), |i: int| ops[i]@)
}

/// The mappings that a store which behaves as a map holds after the
/// operations, done in their order.
pub open spec fn applied<K, V>(store: Map<K, V>, ops: Seq<StoreOpView<K, V>>) -> Map<K, V>
    decreases ops.len(),
{
    if ops.len() == 0 {
        store
    } else {
        match ops.last() {
            StoreOpView::Remove(key) => applied(store, ops.drop_last()).remove(key),
            StoreOpView::Update(key, value) => applied(store, ops.drop_last()).insert(key, value),
        }
    }
}

/// Has the store do the operations, in their order: a call of `remove`
/// or of `update` for each, and no other call.
pub(crate) fn apply_ops<Data: LogData, Store: LogStore<Data>>(
    store: &mut Watched<Data, Store>,
    ops: Vec<StoreOp<Data>>,
)
    ensures
        final(store).calls() == old(store).calls() + op_calls(op_views(ops@)),
{
    let ghost all = op_views(ops@);
    assert(store.calls() =~= old(store).calls() + op_calls(all.take(0)));
    for op in it: ops
        invariant
            it.seq() == ops@,
            all == op_views(ops@),
            store.calls() == old(store).calls() + op_calls(all.take(it.index() as int)),
    {
        let ghost before = store.calls();
        let ghost place = it.index() as int;
        assert(op@ == all[place]);
        match op {
            StoreOp::Remove(key) => store.remove(&key),
            StoreOp::Update(key, value) => store.update(key, value),
        }
        assert(store.calls() =~= old(store).calls() + op_calls(all.take(place + 1)));
    }
    assert(all.take(all.len() as int) =~= all);
}

/// Why no entry could be put together from records.
#[derive(Clone, Copy, Debug, PartialEq, Eq, Structural)]
pub enum SerializeError {
    /// The bytes of the records do not decode to an entry.
    DecodeError(DecodeError),
    /// A record of this type cannot follow the records before it.
    InvalidTransfer(RecordType),
    /// The records ran out before the entry was complete.
    OutOfRecords,
}

/// The pieces of at most `size` bytes that `bytes` falls into, in order.
/// Only the last may be shorter; no bytes give no piece.
pub open spec fn chunks(bytes: Seq<u8>, size: nat) -> Seq<Seq<u8>>
    decreases bytes.len(),
{
    if bytes.len() == 0 || size == 0 {
        Seq::empty()
    } else if bytes.len() <= size {
        seq![bytes]
    } else {
        seq![bytes.take(size as int)] + chunks(bytes.skip(size as int), size)
    }
}

/// The type of the `i`-th of `n` records that carry one entry.
pub open spec fn fragment_type(i: int, n: int) -> RecordType {
    if n == 1 {
        RecordType::Full
    } else if i == 0 {
        RecordType::First
    } else if i == n - 1 {
        RecordType::Last
    } else {
        RecordType::Middle
    }
}

/// The records that carry `bytes` in pieces of at most `size` bytes: one
/// `Zero` record for no bytes, one `Full` record for one piece, else a
/// `First`, `Middle` ones and a `Last`.
pub open spec fn split_records(bytes: Seq<u8>, size: nat) -> Seq<RecordView> {
    let pieces = chunks(bytes, size);
    if pieces.len() == 0 {
        seq![RecordView::of(RecordType::Zero, Seq::empty())]
    } else {
        Seq::new(
            pieces.len(),
            |i: int| RecordView::of(fragment_type(i, pieces.len() as int), pieces[i]),
        )
    }
}

/// The payloads of `records`, one after the other.
pub open spec fn joined_payloads(records: Seq<RecordView>) -> Seq<u8>
    decreases records.len(),
{
    if records.len() == 0 {
        Seq::empty()
    } else {
        joined_payloads(records.drop_last()) + records.last().payload
    }
}

/// The record types spell one entry: a single `Zero` or `Full`, or a
/// `First`, any number of `Middle` and a `Last`.
pub open spec fn spells_entry(records: Seq<RecordView>) -> bool {
    ||| records.len() == 1 && (records[0].record_type == RecordType::Zero
        || records[0].record_type == RecordType::Full)
    ||| {
        &&& records.len() >= 2
        &&& records[0].record_type == RecordType::First
        &&& records.last().record_type == RecordType::Last
        &&& forall|i: int|
            0 < i < records.len() - 1 ==> (#[trigger] records[i]).record_type
                == RecordType::Middle
    }
}

/// Splits `bytes` into records of at most `max_record_size` payload bytes
/// each.
pub fn split_bytes_into_records(bytes: &[u8], max_record_size: usize) -> (records: Vec<Record>)
    requires
        max_record_size >= 1,
    ensures
        records@.len() == split_records(bytes@, max_record_size as nat).len(),
        forall|i: int|
            0 <= i < records@.len() ==> (#[trigger] records@[i])@ == split_records(
                bytes@,
                max_record_size as nat,
            )[i],
{
    let mut records: Vec<Record> = Vec::new();
    let len = bytes.len();
    if len == 0 {
        records.push(Record::new(RecordType::Zero, Vec::new()));
        return records;
    }
    let ghost pieces = chunks(bytes@, max_record_size as nat);
    let mut pos: usize = 0;
    proof {
        assert(bytes@.skip(0) =~= bytes@);
        assert(pieces.skip(0) =~= pieces);
    }
    while pos < len
        invariant
            max_record_size >= 1,
            len == bytes@.len(),
            len > 0,
            pos <= len,
            pieces == chunks(bytes@, max_record_size as nat),
            records@.len() <= pieces.len(),
            pos == len <==> records@.len() == pieces.len(),
            pos == 0 <==> records@.len() == 0,
            pieces.skip(records@.len() as int) =~= chunks(
                bytes@.skip(pos as int),
                max_record_size as nat,
            ),
            forall|i: int|
                0 <= i < records@.len() ==> (#[trigger] records@[i])@ == RecordView::of(
                    fragment_type(i, pieces.len() as int),
                    pieces[i],
                ),
        decreases len - pos,
    {
        let ghost rest = bytes@.skip(pos as int);
        let ghost done = records@.len() as int;
        let first = pos == 0;
        let last = len - pos <= max_record_size;
        let end: usize = if last {
            len
        } else {
            pos + max_record_size
        };
        let record_type = if first && last {
            RecordType::Full
        } else if first {
            RecordType::First
        } else if last {
            RecordType::Last
        } else {
            RecordType::Middle
        };
        let payload = slice_to_vec(slice_subrange(bytes, pos, end));
        proof {
            assert(pieces.skip(done)[0] == pieces[done]);
            if last {
                assert(chunks(rest, max_record_size as nat) =~= seq![rest]);
                assert(pieces.skip(done).len() == 1);
                assert(payload@ =~= rest);
                assert(chunks(bytes@.skip(end as int), max_record_size as nat) =~= Seq::empty());
            } else {
                assert(payload@ =~= rest.take(max_record_size as int));
                assert(rest.skip(max_record_size as int) =~= bytes@.skip(end as int));
                assert(chunks(rest, max_record_size as nat).skip(1) =~= chunks(
                    bytes@.skip(end as int),
                    max_record_size as nat,
                ));
                assert(pieces.skip(done + 1) =~= pieces.skip(done).skip(1));
                assert(chunks(bytes@.skip(end as int), max_record_size as nat).len() >= 1);
            }
        }
        records.push(Record::new(record_type, payload));
        pos = end;
    }
    proof {
        assert(pieces.len() > 0);
    }
    records
}

/// One record joins to its payload.
pub proof fn lemma_joined_single(record: RecordView)
    ensures
        joined_payloads(seq![record]) == record.payload,
{
    let one = seq![record];
    assert(one.drop_last() =~= Seq::<RecordView>::empty());
    assert(joined_payloads(one.drop_last()) =~= Seq::<u8>::empty());
    assert(joined_payloads(one) =~= record.payload);
}

/// Joining goes piece by piece from the front, too.
pub proof fn lemma_joined_prepend(first: RecordView, rest: Seq<RecordView>)
    ensures
        joined_payloads(seq![first] + rest) == first.payload + joined_payloads(rest),
    decreases rest.len(),
{
    let all = seq![first] + rest;
    if rest.len() == 0 {
        assert(all =~= seq![first]);
        lemma_joined_single(first);
        assert(joined_payloads(all) =~= first.payload + joined_payloads(rest));
    } else {
        assert(all.drop_last() =~= seq![first] + rest.drop_last());
        assert(all.last() == rest.last());
        lemma_joined_prepend(first, rest.drop_last());
        assert(joined_payloads(all) =~= first.payload + joined_payloads(rest));
    }
}

/// Records with the same payloads join to the same bytes.
pub proof fn lemma_joined_by_payloads(a: Seq<RecordView>, b: Seq<RecordView>)
    requires
        a.len() == b.len(),
        forall|i: int| 0 <= i < a.len() ==> a[i].payload == b[i].payload,
    ensures
        joined_payloads(a) == joined_payloads(b),
    decreases a.len(),
{
    if a.len() > 0 {
        lemma_joined_by_payloads(a.drop_last(), b.drop_last());
    }
}

/// No piece is longer than `size`, and none is empty.
pub proof fn lemma_chunks_sizes(bytes: Seq<u8>, size: nat)
    requires
        size >= 1,
    ensures
        forall|i: int|
            0 <= i < chunks(bytes, size).len() ==> 1 <= (#[trigger] chunks(bytes, size)[i]).len()
                <= size,
        bytes.len() > 0 ==> chunks(bytes, size).len() >= 1,
    decreases bytes.len(),
{
    if bytes.len() > size {
        lemma_chunks_sizes(bytes.skip(size as int), size);
    }
}

/// Splitting loses nothing: for any bytes and any piece size of at least
/// one, the payloads of the records, joined in order, are the bytes; the
/// record types spell one entry, a single `Zero` record where there are no
/// bytes; and no payload is longer than the piece size.
pub proof fn lemma_split_round_trip(bytes: Seq<u8>, size: nat)
    requires
        size >= 1,
    ensures
        joined_payloads(split_records(bytes, size)) == bytes,
        spells_entry(split_records(bytes, size)),
        bytes.len() == 0 ==> split_records(bytes, size) == seq![
            RecordView::of(RecordType::Zero, Seq::empty()),
        ],
        forall|i: int|
            0 <= i < split_records(bytes, size).len() ==> (#[trigger] split_records(
                bytes,
                size,
            )[i]).payload.len() <= size,
    decreases bytes.len(),
{
    let records = split_records(bytes, size);
    lemma_chunks_sizes(bytes, size);
    if bytes.len() == 0 {
        lemma_joined_single(records[0]);
        assert(records =~= seq![records[0]]);
        assert(joined_payloads(records) =~= bytes);
    } else if bytes.len() <= size {
        lemma_joined_single(records[0]);
        assert(records =~= seq![records[0]]);
    } else {
        let tail = bytes.skip(size as int);
        lemma_split_round_trip(tail, size);
        lemma_chunks_sizes(tail, size);
        let tail_records = split_records(tail, size);
        assert(records =~= seq![records[0]] + records.skip(1));
        lemma_joined_prepend(records[0], records.skip(1));
        assert(chunks(bytes, size).skip(1) =~= chunks(tail, size));
        assert forall|i: int| 0 <= i < tail_records.len() implies records.skip(1)[i].payload
            == tail_records[i].payload by {
            assert(chunks(bytes, size).skip(1)[i] == chunks(bytes, size)[i + 1]);
        }
        lemma_joined_by_payloads(records.skip(1), tail_records);
        assert(bytes.take(size as int) + tail =~= bytes);
    }
}

/// How far the putting together of an entry has come.
#[derive(Clone, Copy, Debug, PartialEq, Eq, Structural)]
pub enum SerializeState {
    /// No record of the entry was read yet.
    Fresh,
    /// The record at one end of the entry was read.
    First,
    /// A record from the middle of the entry was read last.
    Middle,
}

/// What a record does to the putting together of an entry.
pub enum Transfer {
    /// A record of this type cannot come here.
    Invalid,
    /// The record completes the entry.
    Done,
    /// The record goes into the buffer and the reading goes on.
    Continue(SerializeState),
}

/// What a record of the given type does when reading forward: an entry is
/// a single `Zero` or `Full` record, or a `First`, any number of `Middle`
/// and a `Last`.
pub open spec fn forward_transfer(state: SerializeState, record_type: RecordType) -> Transfer {
    match state {
        SerializeState::Fresh => match record_type {
            RecordType::Zero | RecordType::Full => Transfer::Done,
            RecordType::First => Transfer::Continue(SerializeState::First),
            _ => Transfer::Invalid,
        },
        _ => match record_type {
            RecordType::Middle => Transfer::Continue(SerializeState::Middle),
            RecordType::Last => Transfer::Done,
            _ => Transfer::Invalid,
        },
    }
}

/// What a record of the given type does when reading backward: the records
/// of an entry come as a `Last`, any number of `Middle` and a `First`.
pub open spec fn backward_transfer(state: SerializeState, record_type: RecordType) -> Transfer {
    match state {
        SerializeState::Fresh => match record_type {
            RecordType::Zero | RecordType::Full => Transfer::Done,
            RecordType::Last => Transfer::Continue(SerializeState::First),
            _ => Transfer::Invalid,
        },
        _ => match record_type {
            RecordType::Middle => Transfer::Continue(SerializeState::Middle),
            RecordType::First => Transfer::Done,
            _ => Transfer::Invalid,
        },
    }
}

/// Reading the bytes of one entry forward: the state of the iterator
/// afterwards, and the payloads in the order of the file, or why there is
/// no entry.
pub open spec fn read_forward(it: WalIteratorView, buf: Seq<u8>, state: SerializeState) -> (
    WalIteratorView,
    Result<Seq<u8>, SerializeError>,
)
    decreases it.forward_measure(),
{
    match it.next_item() {
        None => (it.after_next(), Err(SerializeError::OutOfRecords)),
        Some(record) => {
            proof {
                lemma_next_decreases(it);
            }
            match forward_transfer(state, record.record_type) {
                Transfer::Invalid => (
                    it.after_next(),
                    Err(SerializeError::InvalidTransfer(record.record_type)),
                ),
                Transfer::Done => (it.after_next(), Ok(buf + record.payload)),
                Transfer::Continue(next) => read_forward(
                    it.after_next(),
                    buf + record.payload,
                    next,
                ),
            }
        },
    }
}

/// Reading the bytes of one entry backward: the state of the iterator
/// afterwards, and the payloads in the order of the file, or why there is
/// no entry.
pub open spec fn read_backward(it: WalIteratorView, buf: Seq<u8>, state: SerializeState) -> (
    WalIteratorView,
    Result<Seq<u8>, SerializeError>,
)
    decreases it.backward_measure(),
{
    match it.next_back_item() {
        None => (it.after_next_back(), Err(SerializeError::OutOfRecords)),
        Some(record) => {
            proof {
                lemma_next_back_decreases(it);
            }
            match backward_transfer(state, record.record_type) {
                Transfer::Invalid => (
                    it.after_next_back(),
                    Err(SerializeError::InvalidTransfer(record.record_type)),
                ),
                Transfer::Done => (it.after_next_back(), Ok(record.payload + buf)),
                Transfer::Continue(next) => read_backward(
                    it.after_next_back(),
                    record.payload + buf,
                    next,
                ),
            }
        },
    }
}

/// Reading an entry forward keeps the iterator sound and on its file, and
/// brings the end nearer where it finds an entry.
pub proof fn lemma_read_forward(it: WalIteratorView, buf: Seq<u8>, state: SerializeState)
    requires
        it.wf(),
    ensures
        read_forward(it, buf, state).0.wf(),
        read_forward(it, buf, state).0.file == it.file,
        read_forward(it, buf, state).1 is Ok ==> read_forward(it, buf, state).0.forward_measure()
            < it.forward_measure(),
    decreases it.forward_measure(),
{
    lemma_steps_keep_wf(it);
    lemma_next_decreases(it);
    if let Some(record) = it.next_item() {
        if let Transfer::Continue(next) = forward_transfer(state, record.record_type) {
            lemma_read_forward(it.after_next(), buf + record.payload, next);
        }
    }
}

/// Reading an entry backward keeps the iterator sound and on its file, and
/// brings the start nearer where it finds an entry.
pub proof fn lemma_read_backward(it: WalIteratorView, buf: Seq<u8>, state: SerializeState)
    requires
        it.wf(),
    ensures
        read_backward(it, buf, state).0.wf(),
        read_backward(it, buf, state).0.file == it.file,
        read_backward(it, buf, state).1 is Ok ==> read_backward(
            it,
            buf,
            state,
        ).0.backward_measure() < it.backward_measure(),
    decreases it.backward_measure(),
{
    lemma_steps_keep_wf(it);
    lemma_next_back_decreases(it);
    if let Some(record) = it.next_back_item() {
        if let Transfer::Continue(next) = backward_transfer(state, record.record_type) {
            lemma_read_backward(it.after_next_back(), record.payload + buf, next);
        }
    }
}

/// The value that the bytes of an entry decode to is what was read, and
/// an error of reading or of decoding is the error returned. Bytes behind
/// the value are passed over.
pub open spec fn decodes_to<S: Serializable>(
    read: Result<Seq<u8>, SerializeError>,
    r: Result<S, SerializeError>,
) -> bool {
    match read {
        Err(e) => r matches Err(e2) && e2 == e,
        Ok(bytes) => match S::decode(bytes) {
            Ok((value, _)) => r matches Ok(v) && v@ == value,
            Err(e) => r matches Err(SerializeError::DecodeError(e2)) && e2 == e,
        },
    }
}

/// Decodes a value from the bytes of an entry.
fn decode_entry<S: Serializable>(buf: &Vec<u8>) -> (r: Result<S, SerializeError>)
    ensures
        decodes_to::<S>(Ok(buf@), r),
{
    let mut bytes: &[u8] = buf.as_slice();
    match S::deserialize(&mut bytes) {
        Ok(value) => Ok(value),
        Err(e) => Err(SerializeError::DecodeError(e)),
    }
}

/// The bytes in the opposite order.
fn reversed(bytes: &Vec<u8>) -> (r: Vec<u8>)
    ensures
        r@ == bytes@.reverse(),
{
    let mut r: Vec<u8> = Vec::new();
    let mut i: usize = bytes.len();
    while i > 0
        invariant
            i <= bytes@.len(),
            r@.len() == bytes@.len() - i,
            forall|j: int| 0 <= j < r@.len() ==> r@[j] == bytes@[bytes@.len() - 1 - j],
        decreases i,
    {
        i -= 1;
        r.push(bytes[i]);
    }
    assert(r@ =~= bytes@.reverse());
    r
}

/// Reads the next entry from the iterator, going forward, and decodes it.
pub fn read_serializable<S: Serializable>(iter: &mut WalIterator) -> (r: Result<S, SerializeError>)
    requires
        old(iter).wf(),
    ensures
        final(iter).wf(),
        final(iter)@ == read_forward(old(iter)@, Seq::empty(), SerializeState::Fresh).0,
        decodes_to::<S>(read_forward(old(iter)@, Seq::empty(), SerializeState::Fresh).1, r),
        r is Ok ==> final(iter)@.forward_measure() < old(iter)@.forward_measure(),
{
    let mut buf: Vec<u8> = Vec::new();
    let mut state = SerializeState::Fresh;
    proof {
        iter.lemma_view_wf();
        lemma_read_forward(iter@, Seq::empty(), SerializeState::Fresh);
    }
    loop
        invariant
            iter.wf(),
            iter@.forward_measure() <= old(iter)@.forward_measure(),
            read_forward(old(iter)@, Seq::empty(), SerializeState::Fresh) == read_forward(
                iter@,
                buf@,
                state,
            ),
        decreases iter@.forward_measure(),
    {
        let ghost before = iter@;
        match iter.next() {
            None => {
                return Err(SerializeError::OutOfRecords);
            },
            Some(mut record) => {
                let record_type = record.record_type;
                match record_type {
                    RecordType::Zero | RecordType::Full => {
                        if state != SerializeState::Fresh {
                            return Err(SerializeError::InvalidTransfer(record_type));
                        }
                        buf.append(&mut record.payload);
                        return decode_entry(&buf);
                    },
                    RecordType::First => {
                        if state != SerializeState::Fresh {
                            return Err(SerializeError::InvalidTransfer(RecordType::First));
                        }
                        state = SerializeState::First;
                        buf.append(&mut record.payload);
                    },
                    RecordType::Middle => {
                        if state != SerializeState::First && state != SerializeState::Middle {
                            return Err(SerializeError::InvalidTransfer(RecordType::Middle));
                        }
                        state = SerializeState::Middle;
                        buf.append(&mut record.payload);
                    },
                    RecordType::Last => {
                        if state != SerializeState::First && state != SerializeState::Middle {
                            return Err(SerializeError::InvalidTransfer(RecordType::Last));
                        }
                        buf.append(&mut record.payload);
                        return decode_entry(&buf);
                    },
                }
            },
        }
    }
}

/// Reads the next entry from the iterator, going backward, and decodes
/// it. The payloads are gathered in the opposite order and turned round
/// at the end.
pub fn read_serializable_backwards<S: Serializable>(iter: &mut WalIterator) -> (r: Result<
    S,
    SerializeError,
>)
    requires
        old(iter).wf(),
    ensures
        final(iter).wf(),
        final(iter)@ == read_backward(old(iter)@, Seq::empty(), SerializeState::Fresh).0,
        decodes_to::<S>(read_backward(old(iter)@, Seq::empty(), SerializeState::Fresh).1, r),
        r is Ok ==> final(iter)@.backward_measure() < old(iter)@.backward_measure(),
{
    let mut buf: Vec<u8> = Vec::new();
    let mut state = SerializeState::Fresh;
    let ghost mut gathered: Seq<u8> = Seq::empty();
    proof {
        iter.lemma_view_wf();
        lemma_read_backward(iter@, Seq::empty(), SerializeState::Fresh);
        assert(buf@ =~= gathered.reverse());
    }
    loop
        invariant
            iter.wf(),
            iter@.backward_measure() <= old(iter)@.backward_measure(),
            buf@ == gathered.reverse(),
            read_backward(old(iter)@, Seq::empty(), SerializeState::Fresh) == read_backward(
                iter@,
                gathered,
                state,
            ),
        decreases iter@.backward_measure(),
    {
        match iter.next_back() {
            None => {
                return Err(SerializeError::OutOfRecords);
            },
            Some(record) => {
                let record_type = record.record_type;
                let ghost whole = record.payload@ + gathered;
                match record_type {
                    RecordType::Zero | RecordType::Full => {
                        if state != SerializeState::Fresh {
                            return Err(SerializeError::InvalidTransfer(record_type));
                        }
                        let mut turned = reversed(&record.payload);
                        buf.append(&mut turned);
                        let entry = reversed(&buf);
                        assert(entry@ =~= whole);
                        return decode_entry(&entry);
                    },
                    RecordType::First => {
                        if state != SerializeState::First && state != SerializeState::Middle {
                            return Err(SerializeError::InvalidTransfer(RecordType::First));
                        }
                        let mut turned = reversed(&record.payload);
                        buf.append(&mut turned);
                        let entry = reversed(&buf);
                        assert(entry@ =~= whole);
                        return decode_entry(&entry);
                    },
                    RecordType::Middle => {
                        if state != SerializeState::First && state != SerializeState::Middle {
                            return Err(SerializeError::InvalidTransfer(RecordType::Middle));
                        }
                        state = SerializeState::Middle;
                        let mut turned = reversed(&record.payload);
                        buf.append(&mut turned);
                    },
                    RecordType::Last => {
                        if state != SerializeState::Fresh {
                            return Err(SerializeError::InvalidTransfer(RecordType::Last));
                        }
                        state = SerializeState::First;
                        let mut turned = reversed(&record.payload);
                        buf.append(&mut turned);
                    },
                }
                proof {
                    gathered = whole;
                    assert(buf@ =~= gathered.reverse());
                }
            },
        }
    }
}

/// `n` zero bytes.
pub open spec fn zeros(n: nat) -> Seq<u8> {
    Seq::new(n, |i: int| 0u8)
}

/// The padding that goes before a record of `total` bytes where the last
/// block of the file holds `used` bytes: the rest of the block, if the
/// record would not fit in it, else nothing.
pub open spec fn padding_len(used: nat, total: nat) -> nat {
    if used + total > BLOCK_SIZE {
        (BLOCK_SIZE - used) as nat
    } else {
        0
    }
}

/// What is written to add a record to a file whose last block holds `used`
/// bytes: the padding, then the record.
pub open spec fn record_bytes(used: nat, record: RecordView) -> Seq<u8> {
    zeros(padding_len(used, record.total_len())) + record.encode()
}

/// The bytes that the last block holds after `more` bytes were added to
/// `used`.
pub open spec fn used_after(used: nat, more: nat) -> nat {
    (used + more) % (BLOCK_SIZE as nat)
}

/// A file after a record was appended to it.
pub open spec fn appended(file: Seq<u8>, record: RecordView) -> Seq<u8> {
    file + record_bytes(file.len() % (BLOCK_SIZE as nat), record)
}

/// Adding bytes in two goes leaves the last block as adding them in one
/// does, and adding none leaves it as it is.
pub proof fn lemma_used_after(used: nat, a: nat, b: nat)
    ensures
        used_after(used_after(used, a), b) == used_after(used, a + b),
        used < BLOCK_SIZE ==> used_after(used, 0) == used,
        used_after(used, a) < BLOCK_SIZE,
{
    vstd::arithmetic::div_mod::lemma_add_mod_noop_right(
        b as int,
        (used + a) as int,
        BLOCK_SIZE as int,
    );
}

/// The bytes that the last block holds after a record of `len` payload
/// bytes was added behind `used` bytes, with padding or without.
proof fn lemma_used_after_record(used: nat, len: nat, padded: bool, now: nat)
    requires
        used < BLOCK_SIZE,
        !padded ==> now == ((used + 7) % 32768 + len % 32768) % 32768,
        padded ==> now == (7 + len % 32768) % 32768,
    ensures
        !padded ==> now == used_after(used, HEADER_SIZE as nat + len),
        padded ==> now == used_after(used, (BLOCK_SIZE - used) as nat + HEADER_SIZE as nat + len),
{
    if padded {
        vstd::arithmetic::div_mod::lemma_add_mod_noop_right(7, len as int, 32768);
        vstd::arithmetic::div_mod::lemma_mod_add_multiples_vanish((7 + len) as int, 32768);
    } else {
        vstd::arithmetic::div_mod::lemma_add_mod_noop((used + 7) as int, len as int, 32768);
    }
}

/// Appends to `out` what must be written to add `record` to a file whose
/// last block holds `used` bytes, and returns the bytes that the last
/// block holds afterwards. The rest of the block is padded with zeros
/// first where header and payload together would not fit in it.
pub fn append_record(out: &mut Vec<u8>, used: usize, record: &Record) -> (now: usize)
    requires
        used < BLOCK_SIZE,
    ensures
        final(out)@ == old(out)@ + record_bytes(used as nat, record@),
        now == used_after(used as nat, record_bytes(used as nat, record@).len()),
        now < BLOCK_SIZE,
{
    let block = BLOCK_SIZE as usize;
    let len = record.payload.len();
    let room = block - used;
    let fits = room >= HEADER_SIZE && len <= room - HEADER_SIZE;
    let mut start = used;
    if !fits {
        let mut i: usize = 0;
        while i < room
            invariant
                i <= room,
                out@ == old(out)@ + zeros(i as nat),
            decreases room - i,
        {
            out.push(0);
            assert(out@ =~= old(out)@ + zeros((i + 1) as nat));
            i += 1;
        }
        start = 0;
    } else {
        assert(out@ =~= old(out)@ + zeros(0));
    }
    assert(fits <==> !(used + record@.total_len() > BLOCK_SIZE));
    assert(out@ == old(out)@ + zeros(padding_len(used as nat, record@.total_len())));
    record.write(out);
    assert(out@ =~= old(out)@ + record_bytes(used as nat, record@));
    let now = ((start + HEADER_SIZE) % block + len % block) % block;
    proof {
        assert(record@.encode().len() == HEADER_SIZE + len);
        lemma_used_after_record(used as nat, len as nat, !fits, now as nat);
        assert(record_bytes(used as nat, record@).len() == padding_len(
            used as nat,
            record@.total_len(),
        ) + HEADER_SIZE + len);
    }
    now
}

/// Appends a record to a log file held in memory, so that the record does
/// not begin in a block that it does not fit in.
pub fn append_to_file(file: &mut Vec<u8>, record: &Record)
    ensures
        final(file)@ == appended(old(file)@, record@),
{
    let used = file.len() % (BLOCK_SIZE as usize);
    append_record(file, used, record);
}

/// The most payload bytes of a record that carries a piece of a log
/// entry.
pub const MAX_RECORD_SIZE: usize = 1024;

/// The view of the keys of a store.
pub type KeyView<Data> = <<Data as LogData>::Key as View>::V;

/// The view of the values of a store.
pub type ValueView<Data> = <<Data as LogData>::Value as View>::V;

/// Why an operation of a log engine failed.
#[derive(Debug)]
pub enum LogError {
    /// The store could not flush; the error is the store's own.
    IoError(std::io::Error),
}

/// What a log engine hands back from an operation that writes: the bytes
/// to append to the log file, and whether the operation is complete.
#[derive(Debug)]
pub enum Progress {
    /// Append the bytes to the log file, then call the operation again:
    /// it has more to do once they are written.
    More(Vec<u8>),
    /// Append the bytes to the log file; the operation is complete.
    Done(Vec<u8>),
}

/// What a recovery has seen of checkpoints on its way back through the
/// log.
pub enum RecoverState {
    /// No checkpoint mark was read yet.
    Fresh,
    /// A begin mark was read; these of its transactions have not started
    /// yet on the way back.
    Begin(TidSet),
    /// An end mark was read, and no begin mark since.
    End,
}

/// What a recovery has seen of checkpoints, as a mathematical value.
pub enum RecoverStateView {
    Fresh,
    Begin(Seq<u64>),
    End,
}

impl View for RecoverState {
    type V = RecoverStateView;

    open spec fn view(&self) -> RecoverStateView {
        match self {
            RecoverState::Fresh => RecoverStateView::Fresh,
            RecoverState::Begin(tids) => RecoverStateView::Begin(tids@),
            RecoverState::End => RecoverStateView::End,
        }
    }
}

impl RecoverState {
    /// The set of a begin mark holds no id twice.
    pub open spec fn wf(&self) -> bool {
        match self {
            RecoverState::Begin(tids) => tids.wf(),
            _ => true,
        }
    }
}

/// The entries as mathematical values.
pub open spec fn entry_views<Data: LogData>(entries: Seq<SingleLogEntry<Data>>) -> Seq<
    LogEntryView<KeyView<Data>, ValueView<Data>>,
> {
    Seq::new(entries.len(), |i: int| entries[i]@)
}

/// What is written to add the records, one after the other, to a file
/// whose last block holds `used` bytes.
pub open spec fn records_bytes(used: nat, records: Seq<RecordView>) -> Seq<u8>
    decreases records.len(),
{
    if records.len() == 0 {
        Seq::empty()
    } else {
        let head = records_bytes(used, records.drop_last());
        head + record_bytes(used_after(used, head.len()), records.last())
    }
}

/// What is written to add the entries, one after the other, to a file
/// whose last block holds `used` bytes: each entry is serialized and split
/// into records of at most `MAX_RECORD_SIZE` payload bytes.
pub open spec fn entries_bytes<Data: LogData>(
    used: nat,
    entries: Seq<LogEntryView<KeyView<Data>, ValueView<Data>>>,
) -> Seq<u8>
    decreases entries.len(),
{
    if entries.len() == 0 {
        Seq::empty()
    } else {
        let head = entries_bytes::<Data>(used, entries.drop_last());
        head + records_bytes(
            used_after(used, head.len()),
            split_records(SingleLogEntry::<Data>::encode(entries.last()), MAX_RECORD_SIZE as nat),
        )
    }
}

/// What is written to add one entry to a file whose last block holds
/// `used` bytes.
pub open spec fn entry_bytes<Data: LogData>(
    used: nat,
    entry: LogEntryView<KeyView<Data>, ValueView<Data>>,
) -> Seq<u8> {
    records_bytes(
        used,
        split_records(SingleLogEntry::<Data>::encode(entry), MAX_RECORD_SIZE as nat),
    )
}

/// Appends to `out` what must be written to add the entry to a file
/// whose last block holds `used` bytes, and returns the bytes that the
/// last block holds afterwards.
fn write_entry<Data: LogData>(out: &mut Vec<u8>, used: usize, entry: &SingleLogEntry<Data>) -> (now:
    usize)
    requires
        used < BLOCK_SIZE,
    ensures
        final(out)@ == old(out)@ + entry_bytes::<Data>(used as nat, entry@),
        now == used_after(used as nat, entry_bytes::<Data>(used as nat, entry@).len()),
        now < BLOCK_SIZE,
{
    let ghost before = out@;
    let mut now = used;
    let mut bytes: Vec<u8> = Vec::new();
    entry.serialize(&mut bytes);
    assert(bytes@ =~= SingleLogEntry::<Data>::encode(entry@));
    let records = split_bytes_into_records(bytes.as_slice(), MAX_RECORD_SIZE);
    let ghost record_views = split_records(bytes@, MAX_RECORD_SIZE as nat);
    let mut j: usize = 0;
    proof {
        assert(record_views.take(0) =~= Seq::empty());
        assert(out@ =~= before + Seq::<u8>::empty());
        lemma_used_after(used as nat, 0, 0);
    }
    while j < records.len()
        invariant
            j <= records@.len(),
            records@.len() == record_views.len(),
            forall|k: int| 0 <= k < records@.len() ==> (#[trigger] records@[k])@ == record_views[k],
            used < BLOCK_SIZE,
            now < BLOCK_SIZE,
            out@ == before + records_bytes(used as nat, record_views.take(j as int)),
            now == used_after(
                used as nat,
                records_bytes(used as nat, record_views.take(j as int)).len(),
            ),
        decreases records@.len() - j,
    {
        assert(record_views.take(j + 1).drop_last() =~= record_views.take(j as int));
        assert(record_views.take(j + 1).last() == records@[j as int]@);
        let ghost sofar = records_bytes(used as nat, record_views.take(j as int));
        let ghost here = now;
        now = append_record(out, now, &records[j]);
        proof {
            let piece = record_bytes(here as nat, record_views[j as int]);
            assert(records_bytes(used as nat, record_views.take(j + 1)) == sofar + piece);
            assert(out@ =~= before + (sofar + piece));
            lemma_used_after(used as nat, sofar.len(), piece.len());
        }
        j += 1;
    }
    assert(record_views.take(j as int) =~= record_views);
    now
}

/// Appends to `out` what must be written to add the entries, oldest
/// first, to a file whose last block holds `used` bytes, and returns the
/// bytes that the last block holds afterwards.
pub fn write_entries<Data: LogData>(
    out: &mut Vec<u8>,
    used: usize,
    entries: &VecDeque<SingleLogEntry<Data>>,
) -> (now: usize)
    requires
        used < BLOCK_SIZE,
    ensures
        final(out)@ == old(out)@ + entries_bytes::<Data>(used as nat, entry_views(entries@)),
        now == used_after(
            used as nat,
            entries_bytes::<Data>(used as nat, entry_views(entries@)).len(),
        ),
        now < BLOCK_SIZE,
{
    let ghost views = entry_views(entries@);
    let mut now = used;
    let mut i: usize = 0;
    proof {
        assert(views.take(0) =~= Seq::empty());
        assert(out@ =~= old(out)@ + Seq::<u8>::empty());
        lemma_used_after(used as nat, 0, 0);
    }
    while i < entries.len()
        invariant
            i <= entries@.len(),
            views == entry_views(entries@),
            used < BLOCK_SIZE,
            now < BLOCK_SIZE,
            out@ == old(out)@ + entries_bytes::<Data>(used as nat, views.take(i as int)),
            now == used_after(
                used as nat,
                entries_bytes::<Data>(used as nat, views.take(i as int)).len(),
            ),
        decreases entries@.len() - i,
    {
        let ghost head = entries_bytes::<Data>(used as nat, views.take(i as int));
        let ghost start = now;
        now = write_entry(out, now, &entries[i]);
        proof {
            assert(views.take(i + 1).drop_last() =~= views.take(i as int));
            assert(views.take(i + 1).last() == views[i as int]);
            let piece = entry_bytes::<Data>(start as nat, views[i as int]);
            assert(entries_bytes::<Data>(used as nat, views.take(i + 1)) == head + piece);
            assert(out@ =~= old(out)@ + (head + piece));
            lemma_used_after(used as nat, head.len(), piece.len());
        }
        i += 1;
    }
    assert(views.take(i as int) =~= views);
    now
}

/// The entries that a log has staged, oldest first.
pub(crate) fn staged_entries<Data: LogData>(staged: &VecDeque<SingleLogEntry<Data>>) -> (entries: Vec<
    SingleLogEntry<Data>,
>)
    ensures
        entries@.len() == staged@.len(),
        forall|i: int|
            0 <= i < entries@.len() ==> cloned::<SingleLogEntry<Data>>(
                staged@[i],
                #[trigger] entries@[i],
            ),
{
    let mut queue = staged.clone();
    let ghost copy = queue@;
    assert(copy.len() == staged@.len());
    assert forall|i: int| 0 <= i < copy.len() implies cloned::<SingleLogEntry<Data>>(
        staged@[i],
        #[trigger] copy[i],
    ) by {
        assert(cloned::<SingleLogEntry<Data>>(staged[i], queue[i]));
    }
    let mut entries: Vec<SingleLogEntry<Data>> = Vec::new();
    while queue.len() > 0
        invariant
            entries@ + queue@ == copy,
        decreases queue@.len(),
    {
        let ghost rest = queue@;
        let ghost sofar = entries@;
        match queue.pop_front() {
            Some(entry) => {
                entries.push(entry);
                assert(entries@ + queue@ =~= sofar + rest);
            },
            None => {},
        }
    }
    assert(entries@ =~= copy);
    entries
}

/// The entries that reading backward yields, one after the other, until a
/// read fails or an entry does not decode.
pub open spec fn backward_entries<Data: LogData>(it: WalIteratorView) -> Seq<
    LogEntryView<KeyView<Data>, ValueView<Data>>,
>
    decreases it.backward_measure(),
    when it.wf()
{
    let read = read_backward(it, Seq::empty(), SerializeState::Fresh);
    match read.1 {
        Ok(bytes) => match SingleLogEntry::<Data>::decode(bytes) {
            Ok((entry, _)) => {
                proof {
                    lemma_read_backward(it, Seq::empty(), SerializeState::Fresh);
                }
                seq![entry] + backward_entries::<Data>(read.0)
            },
            Err(_) => Seq::empty(),
        },
        Err(_) => Seq::empty(),
    }
}

/// The entries that reading forward yields, one after the other, until a
/// read fails or an entry does not decode.
pub open spec fn forward_entries<Data: LogData>(it: WalIteratorView) -> Seq<
    LogEntryView<KeyView<Data>, ValueView<Data>>,
>
    decreases it.forward_measure(),
    when it.wf()
{
    let read = read_forward(it, Seq::empty(), SerializeState::Fresh);
    match read.1 {
        Ok(bytes) => match SingleLogEntry::<Data>::decode(bytes) {
            Ok((entry, _)) => {
                proof {
                    lemma_read_forward(it, Seq::empty(), SerializeState::Fresh);
                }
                seq![entry] + forward_entries::<Data>(read.0)
            },
            Err(_) => Seq::empty(),
        },
        Err(_) => Seq::empty(),
    }
}

} // verus!
