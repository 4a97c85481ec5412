use crate::wal::entries::{LogEntryView, SingleLogEntry};
use crate::wal::iterator::{
    lemma_next_back_decreases, lemma_next_decreases, ReadDirection, WalIteratorView,
};
use crate::wal::layout::{
    all_fit, appended_all, backward_records, fits, forward_records, lemma_appended_iteration,
    lemma_start_wf,
};
use crate::wal::record::{RecordType, RecordView, BLOCK_SIZE, HEADER_SIZE};
use crate::wal::{
    appended, backward_entries, backward_transfer, entries_bytes, forward_entries,
    forward_transfer, joined_payloads, lemma_joined_prepend, lemma_joined_single,
    lemma_read_backward, lemma_read_forward, lemma_split_round_trip, lemma_used_after,
    read_backward, read_forward, records_bytes, spells_entry, split_records,
    used_after, KeyView, LogData, SerializeError, SerializeState, Transfer, ValueView,
    MAX_RECORD_SIZE,
};
use crate::{DecodeError, Serializable};
use vstd::prelude::*;

verus! {

/// Reading the bytes of one entry forward from records: the payloads in
/// their order, or why there is no entry.
pub open spec fn assemble_forward(
    records: Seq<RecordView>,
    buf: Seq<u8>,
    state: SerializeState,
) -> Result<Seq<u8>, SerializeError>
    decreases records.len(),
{
    if records.len() == 0 {
        Err(SerializeError::OutOfRecords)
    } else {
        match forward_transfer(state, records[0].record_type) {
            Transfer::Invalid => Err(SerializeError::InvalidTransfer(records[0].record_type)),
            Transfer::Done => Ok(buf + records[0].payload),
            Transfer::Continue(next) => assemble_forward(
                records.drop_first(),
                buf + records[0].payload,
                next,
            ),
        }
    }
}

/// Reading the bytes of one entry backward from records that come last
/// first: the payloads in the order of the file, or why there is no
/// entry.
pub open spec fn assemble_backward(
    records: Seq<RecordView>,
    buf: Seq<u8>,
    state: SerializeState,
) -> Result<Seq<u8>, SerializeError>
    decreases records.len(),
{
    if records.len() == 0 {
        Err(SerializeError::OutOfRecords)
    } else {
        match backward_transfer(state, records[0].record_type) {
            Transfer::Invalid => Err(SerializeError::InvalidTransfer(records[0].record_type)),
            Transfer::Done => Ok(records[0].payload + buf),
            Transfer::Continue(next) => assemble_backward(
                records.drop_first(),
                records[0].payload + buf,
                next,
            ),
        }
    }
}

/// The number of records that reading one entry forward takes up.
pub open spec fn taken_forward(records: Seq<RecordView>, state: SerializeState) -> nat
    decreases records.len(),
{
    if records.len() == 0 {
        0
    } else {
        match forward_transfer(state, records[0].record_type) {
            Transfer::Continue(next) => 1 + taken_forward(records.drop_first(), next),
            _ => 1,
        }
    }
}

/// The number of records that reading one entry backward takes up.
pub open spec fn taken_backward(records: Seq<RecordView>, state: SerializeState) -> nat
    decreases records.len(),
{
    if records.len() == 0 {
        0
    } else {
        match backward_transfer(state, records[0].record_type) {
            Transfer::Continue(next) => 1 + taken_backward(records.drop_first(), next),
            _ => 1,
        }
    }
}

/// Reading an entry forward from an iterator is reading it from the
/// records that the iterator hands out; where records are left at the
/// end of the reading, the iterator goes on behind the records taken.
pub proof fn lemma_read_forward_records(it: WalIteratorView, buf: Seq<u8>, state: SerializeState)
    ensures
        read_forward(it, buf, state).1 == assemble_forward(forward_records(it), buf, state),
        read_forward(it, buf, state).1 != Err::<Seq<u8>, SerializeError>(
            SerializeError::OutOfRecords,
        ) ==> taken_forward(forward_records(it), state) <= forward_records(it).len()
            && forward_records(read_forward(it, buf, state).0) == forward_records(it).skip(
            taken_forward(forward_records(it), state) as int,
        ),
    decreases it.forward_measure(),
{
    let records = forward_records(it);
    lemma_next_decreases(it);
    if let Some(record) = it.next_item() {
        let after = it.after_next();
        assert(records[0] == record);
        assert(records.drop_first() =~= forward_records(after));
        assert(records.skip(1) =~= forward_records(after));
        if let Transfer::Continue(next) = forward_transfer(state, record.record_type) {
            lemma_read_forward_records(after, buf + record.payload, next);
            let taken = taken_forward(forward_records(after), next);
            if taken <= forward_records(after).len() {
                assert(records.skip(1 + taken as int) =~= forward_records(after).skip(taken as int));
            }
        }
    }
}

/// Reading an entry backward from an iterator is reading it from the
/// records that the iterator hands out; where records are left at the
/// end of the reading, the iterator goes on behind the records taken.
pub proof fn lemma_read_backward_records(it: WalIteratorView, buf: Seq<u8>, state: SerializeState)
    ensures
        read_backward(it, buf, state).1 == assemble_backward(backward_records(it), buf, state),
        read_backward(it, buf, state).1 != Err::<Seq<u8>, SerializeError>(
            SerializeError::OutOfRecords,
        ) ==> taken_backward(backward_records(it), state) <= backward_records(it).len()
            && backward_records(read_backward(it, buf, state).0) == backward_records(it).skip(
            taken_backward(backward_records(it), state) as int,
        ),
    decreases it.backward_measure(),
{
    let records = backward_records(it);
    lemma_next_back_decreases(it);
    if let Some(record) = it.next_back_item() {
        let after = it.after_next_back();
        assert(records[0] == record);
        assert(records.drop_first() =~= backward_records(after));
        assert(records.skip(1) =~= backward_records(after));
        if let Transfer::Continue(next) = backward_transfer(state, record.record_type) {
            lemma_read_backward_records(after, record.payload + buf, next);
            let taken = taken_backward(backward_records(after), next);
            if taken <= backward_records(after).len() {
                assert(records.skip(1 + taken as int) =~= backward_records(after).skip(taken as int));
            }
        }
    }
}

/// The records are any number of `Middle` and a `Last`.
pub open spec fn ends_entry(records: Seq<RecordView>) -> bool {
    &&& records.len() >= 1
    &&& records.last().record_type == RecordType::Last
    &&& forall|i: int|
        0 <= i < records.len() - 1 ==> (#[trigger] records[i]).record_type == RecordType::Middle
}

/// The records are a `First` and any number of `Middle`.
pub open spec fn begins_entry(records: Seq<RecordView>) -> bool {
    &&& records.len() >= 1
    &&& records[0].record_type == RecordType::First
    &&& forall|i: int|
        0 < i < records.len() ==> (#[trigger] records[i]).record_type == RecordType::Middle
}

/// Once an entry has begun, reading forward through its other records
/// gathers their payloads and takes up just them.
proof fn lemma_assemble_forward_rest(
    records: Seq<RecordView>,
    more: Seq<RecordView>,
    buf: Seq<u8>,
    state: SerializeState,
)
    requires
        ends_entry(records),
        state != SerializeState::Fresh,
    ensures
        assemble_forward(records + more, buf, state) == Ok::<Seq<u8>, SerializeError>(
            buf + joined_payloads(records),
        ),
        taken_forward(records + more, state) == records.len(),
    decreases records.len(),
{
    let all = records + more;
    assert(all[0] == records[0]);
    if records.len() == 1 {
        lemma_joined_single(records[0]);
        assert(records =~= seq![records[0]]);
    } else {
        let rest = records.drop_first();
        assert(all.drop_first() =~= rest + more);
        assert(ends_entry(rest)) by {
            assert(rest.last() == records.last());
            assert forall|i: int| 0 <= i < rest.len() - 1 implies (#[trigger] rest[i]).record_type
                == RecordType::Middle by {
                assert(rest[i] == records[i + 1]);
            }
        }
        assert(records[0].record_type == RecordType::Middle);
        lemma_assemble_forward_rest(rest, more, buf + records[0].payload, SerializeState::Middle);
        assert(records =~= seq![records[0]] + rest);
        lemma_joined_prepend(records[0], rest);
        assert(buf + records[0].payload + joined_payloads(rest) =~= buf + joined_payloads(
            records,
        ));
    }
}

/// Reading forward through the records of one entry gathers the
/// payloads of the entry and takes up just its records, whatever
/// follows.
pub proof fn lemma_assemble_forward(records: Seq<RecordView>, more: Seq<RecordView>)
    requires
        spells_entry(records),
    ensures
        assemble_forward(records + more, Seq::empty(), SerializeState::Fresh) == Ok::<
            Seq<u8>,
            SerializeError,
        >(joined_payloads(records)),
        taken_forward(records + more, SerializeState::Fresh) == records.len(),
{
    let all = records + more;
    assert(all[0] == records[0]);
    if records.len() == 1 {
        lemma_joined_single(records[0]);
        assert(records =~= seq![records[0]]);
        assert(Seq::<u8>::empty() + records[0].payload =~= records[0].payload);
    } else {
        let rest = records.drop_first();
        assert(all.drop_first() =~= rest + more);
        assert(ends_entry(rest)) by {
            assert(rest.last() == records.last());
            assert forall|i: int| 0 <= i < rest.len() - 1 implies (#[trigger] rest[i]).record_type
                == RecordType::Middle by {
                assert(rest[i] == records[i + 1]);
            }
        }
        lemma_assemble_forward_rest(
            rest,
            more,
            Seq::empty() + records[0].payload,
            SerializeState::First,
        );
        assert(records =~= seq![records[0]] + rest);
        lemma_joined_prepend(records[0], rest);
        assert(Seq::<u8>::empty() + records[0].payload + joined_payloads(rest)
            =~= joined_payloads(records));
    }
}

/// Once an entry has been entered from its end, reading backward through
/// its other records gathers their payloads and takes up just them.
proof fn lemma_assemble_backward_rest(
    records: Seq<RecordView>,
    more: Seq<RecordView>,
    buf: Seq<u8>,
    state: SerializeState,
)
    requires
        begins_entry(records),
        state != SerializeState::Fresh,
    ensures
        assemble_backward(records.reverse() + more, buf, state) == Ok::<Seq<u8>, SerializeError>(
            joined_payloads(records) + buf,
        ),
        taken_backward(records.reverse() + more, state) == records.len(),
    decreases records.len(),
{
    let all = records.reverse() + more;
    assert(all[0] == records.last());
    if records.len() == 1 {
        lemma_joined_single(records[0]);
        assert(records =~= seq![records[0]]);
    } else {
        let front = records.drop_last();
        assert(all.drop_first() =~= front.reverse() + more);
        assert(begins_entry(front)) by {
            assert(front[0] == records[0]);
            assert forall|i: int| 0 < i < front.len() implies (#[trigger] front[i]).record_type
                == RecordType::Middle by {
                assert(front[i] == records[i]);
            }
        }
        assert(records[records.len() - 1].record_type == RecordType::Middle);
        lemma_assemble_backward_rest(
            front,
            more,
            records.last().payload + buf,
            SerializeState::Middle,
        );
        assert(joined_payloads(front) + (records.last().payload + buf) =~= joined_payloads(
            records,
        ) + buf);
    }
}

/// Reading backward through the records of one entry, last first,
/// gathers the payloads of the entry in the order of the file and takes
/// up just its records, whatever follows.
pub proof fn lemma_assemble_backward(records: Seq<RecordView>, more: Seq<RecordView>)
    requires
        spells_entry(records),
    ensures
        assemble_backward(records.reverse() + more, Seq::empty(), SerializeState::Fresh) == Ok::<
            Seq<u8>,
            SerializeError,
        >(joined_payloads(records)),
        taken_backward(records.reverse() + more, SerializeState::Fresh) == records.len(),
{
    let all = records.reverse() + more;
    assert(all[0] == records.last());
    if records.len() == 1 {
        lemma_joined_single(records[0]);
        assert(records =~= seq![records[0]]);
        assert(records[0].payload + Seq::<u8>::empty() =~= records[0].payload);
    } else {
        let front = records.drop_last();
        assert(all.drop_first() =~= front.reverse() + more);
        assert(begins_entry(front)) by {
            assert(front[0] == records[0]);
            assert forall|i: int| 0 < i < front.len() implies (#[trigger] front[i]).record_type
                == RecordType::Middle by {
                assert(front[i] == records[i]);
            }
        }
        lemma_assemble_backward_rest(
            front,
            more,
            records.last().payload + Seq::empty(),
            SerializeState::First,
        );
        assert(joined_payloads(front) + (records.last().payload + Seq::<u8>::empty())
            =~= joined_payloads(records));
    }
}

/// The records that carry bytes in pieces of a size that leaves room for
/// the header in a block can be appended and read back.
pub proof fn lemma_split_fits(bytes: Seq<u8>, size: nat)
    requires
        1 <= size,
        size + HEADER_SIZE <= BLOCK_SIZE,
    ensures
        all_fit(split_records(bytes, size)),
{
    lemma_split_round_trip(bytes, size);
    let records = split_records(bytes, size);
    assert forall|i: int| 0 <= i < records.len() implies fits(#[trigger] records[i]) by {
        assert(records[i].payload.len() <= size);
    }
}

/// Entry round-trip: where a value that can be read back from its bytes
/// is serialized, split into records of a size that leaves room for the
/// header in a block, and the records are appended to an empty file,
/// reading an entry from the file, forward as well as backward, gives
/// the bytes that decode to the value.
pub proof fn lemma_entry_round_trip<S: Serializable>(value: S::V, size: nat)
    requires
        S::encodable(value),
        1 <= size,
        size + HEADER_SIZE <= BLOCK_SIZE,
        appended_all(Seq::empty(), split_records(S::encode(value), size)).len() <= u64::MAX,
    ensures
        ({
            let file = appended_all(Seq::empty(), split_records(S::encode(value), size));
            let forward = read_forward(
                WalIteratorView::start(file, ReadDirection::Forward),
                Seq::empty(),
                SerializeState::Fresh,
            ).1;
            let backward = read_backward(
                WalIteratorView::start(file, ReadDirection::Backward),
                Seq::empty(),
                SerializeState::Fresh,
            ).1;
            &&& forward == Ok::<Seq<u8>, SerializeError>(S::encode(value))
            &&& backward == Ok::<Seq<u8>, SerializeError>(S::encode(value))
            &&& S::decode(S::encode(value)) == Ok::<(S::V, nat), DecodeError>(
                (value, S::encode(value).len()),
            )
        }),
{
    let bytes = S::encode(value);
    let records = split_records(bytes, size);
    let file = appended_all(Seq::empty(), records);
    lemma_split_round_trip(bytes, size);
    lemma_split_fits(bytes, size);
    lemma_appended_iteration(records);
    let forward = WalIteratorView::start(file, ReadDirection::Forward);
    let backward = WalIteratorView::start(file, ReadDirection::Backward);
    lemma_read_forward_records(forward, Seq::empty(), SerializeState::Fresh);
    lemma_read_backward_records(backward, Seq::empty(), SerializeState::Fresh);
    lemma_assemble_forward(records, Seq::empty());
    lemma_assemble_backward(records, Seq::empty());
    assert(records + Seq::<RecordView>::empty() =~= records);
    assert(records.reverse() + Seq::<RecordView>::empty() =~= records.reverse());
    S::lemma_decode_encode(value, Seq::empty());
    assert(bytes + Seq::<u8>::empty() =~= bytes);
}

/// The records that carry the entries, each entry split into records of
/// at most `MAX_RECORD_SIZE` payload bytes.
pub open spec fn entry_records<Data: LogData>(
    entries: Seq<LogEntryView<KeyView<Data>, ValueView<Data>>>,
) -> Seq<RecordView>
    decreases entries.len(),
{
    if entries.len() == 0 {
        Seq::empty()
    } else {
        entry_records::<Data>(entries.drop_last()) + split_records(
            SingleLogEntry::<Data>::encode(entries.last()),
            MAX_RECORD_SIZE as nat,
        )
    }
}

/// Every one of the entries can be read back from its bytes.
pub open spec fn all_encodable<Data: LogData>(
    entries: Seq<LogEntryView<KeyView<Data>, ValueView<Data>>>,
) -> bool {
    forall|i: int|
        0 <= i < entries.len() ==> SingleLogEntry::<Data>::encodable(#[trigger] entries[i])
}

/// The file of a log that began empty and to which the entries were
/// written.
pub open spec fn log_file<Data: LogData>(
    entries: Seq<LogEntryView<KeyView<Data>, ValueView<Data>>>,
) -> Seq<u8> {
    entries_bytes::<Data>(0, entries)
}

/// What is written for records that come in two runs is what is written
/// for the first run, then for the second.
pub proof fn lemma_records_bytes_concat(used: nat, first: Seq<RecordView>, second: Seq<RecordView>)
    ensures
        records_bytes(used, first + second) == records_bytes(used, first) + records_bytes(
            used_after(used, records_bytes(used, first).len()),
            second,
        ),
    decreases second.len(),
{
    let head = records_bytes(used, first);
    let middle = used_after(used, head.len());
    if second.len() == 0 {
        assert(first + second =~= first);
        assert(head + records_bytes(middle, second) =~= head);
    } else {
        let front = second.drop_last();
        assert((first + second).drop_last() =~= first + front);
        assert((first + second).last() == second.last());
        lemma_records_bytes_concat(used, first, front);
        let tail = records_bytes(middle, front);
        lemma_used_after(used, head.len(), tail.len());
        assert(records_bytes(used, first + second) =~= head + records_bytes(middle, second));
    }
}

/// What is written for entries is what is written for their records.
pub proof fn lemma_entries_bytes_records<Data: LogData>(
    used: nat,
    entries: Seq<LogEntryView<KeyView<Data>, ValueView<Data>>>,
)
    ensures
        entries_bytes::<Data>(used, entries) == records_bytes(
            used,
            entry_records::<Data>(entries),
        ),
    decreases entries.len(),
{
    if entries.len() > 0 {
        let front = entries.drop_last();
        lemma_entries_bytes_records::<Data>(used, front);
        lemma_records_bytes_concat(
            used,
            entry_records::<Data>(front),
            split_records(SingleLogEntry::<Data>::encode(entries.last()), MAX_RECORD_SIZE as nat),
        );
    }
}

/// A file to which records were appended is the file, then what is
/// written for the records.
pub proof fn lemma_appended_all_bytes(file: Seq<u8>, records: Seq<RecordView>)
    ensures
        appended_all(file, records) == file + records_bytes(
            file.len() % (BLOCK_SIZE as nat),
            records,
        ),
    decreases records.len(),
{
    let used = file.len() % (BLOCK_SIZE as nat);
    if records.len() == 0 {
        assert(file + records_bytes(used, records) =~= file);
    } else {
        let front = records.drop_last();
        lemma_appended_all_bytes(file, front);
        let head = records_bytes(used, front);
        let middle = appended_all(file, front);
        vstd::arithmetic::div_mod::lemma_add_mod_noop_right(
            head.len() as int,
            file.len() as int,
            32768,
        );
        assert(middle.len() % 32768 == used_after(used, head.len()));
        assert(appended(middle, records.last()) =~= file + records_bytes(used, records));
    }
}

/// The records that carry entries can be appended and read back.
pub proof fn lemma_entry_records_fit<Data: LogData>(
    entries: Seq<LogEntryView<KeyView<Data>, ValueView<Data>>>,
)
    ensures
        all_fit(entry_records::<Data>(entries)),
    decreases entries.len(),
{
    if entries.len() > 0 {
        let front = entries.drop_last();
        let last = split_records(
            SingleLogEntry::<Data>::encode(entries.last()),
            MAX_RECORD_SIZE as nat,
        );
        lemma_entry_records_fit::<Data>(front);
        lemma_split_fits(SingleLogEntry::<Data>::encode(entries.last()), MAX_RECORD_SIZE as nat);
        let all = entry_records::<Data>(entries);
        let head = entry_records::<Data>(front);
        assert forall|i: int| 0 <= i < all.len() implies fits(#[trigger] all[i]) by {
            if i < head.len() {
                assert(all[i] == head[i]);
            } else {
                assert(all[i] == last[i - head.len()]);
            }
        }
    }
}

/// The records of entries are the records of the first entry, then of
/// the others.
pub proof fn lemma_entry_records_first<Data: LogData>(
    entries: Seq<LogEntryView<KeyView<Data>, ValueView<Data>>>,
)
    requires
        entries.len() > 0,
    ensures
        entry_records::<Data>(entries) == split_records(
            SingleLogEntry::<Data>::encode(entries[0]),
            MAX_RECORD_SIZE as nat,
        ) + entry_records::<Data>(entries.drop_first()),
    decreases entries.len(),
{
    let first = split_records(SingleLogEntry::<Data>::encode(entries[0]), MAX_RECORD_SIZE as nat);
    if entries.len() == 1 {
        assert(entries.drop_last() =~= Seq::empty());
        assert(entries.drop_first() =~= Seq::empty());
        assert(entry_records::<Data>(entries) =~= first + entry_records::<Data>(
            entries.drop_first(),
        ));
    } else {
        let front = entries.drop_last();
        let rest = entries.drop_first();
        lemma_entry_records_first::<Data>(front);
        assert(front[0] == entries[0]);
        assert(front.drop_first() =~= rest.drop_last());
        assert(rest.last() == entries.last());
        assert(entry_records::<Data>(entries) =~= first + entry_records::<Data>(rest));
    }
}

/// An iterator that hands out, going forward, the records of entries
/// that can be read back, and then none, yields these entries to a
/// reader.
pub proof fn lemma_forward_entries<Data: LogData>(
    it: WalIteratorView,
    entries: Seq<LogEntryView<KeyView<Data>, ValueView<Data>>>,
)
    requires
        it.wf(),
        all_encodable::<Data>(entries),
        forward_records(it) == entry_records::<Data>(entries),
    ensures
        forward_entries::<Data>(it) == entries,
    decreases entries.len(),
{
    let read = read_forward(it, Seq::empty(), SerializeState::Fresh);
    if entries.len() == 0 {
        lemma_read_forward_records(it, Seq::empty(), SerializeState::Fresh);
        assert(forward_entries::<Data>(it) =~= entries);
    } else {
        let bytes = SingleLogEntry::<Data>::encode(entries[0]);
        let first = split_records(bytes, MAX_RECORD_SIZE as nat);
        let rest = entries.drop_first();
        let tail = entry_records::<Data>(rest);
        assert(read.1 == Ok::<Seq<u8>, SerializeError>(bytes) && forward_records(read.0) == tail
            && read.0.wf()) by {
            lemma_read_forward_records(it, Seq::empty(), SerializeState::Fresh);
            lemma_read_forward(it, Seq::empty(), SerializeState::Fresh);
            lemma_entry_records_first::<Data>(entries);
            lemma_split_round_trip(bytes, MAX_RECORD_SIZE as nat);
            lemma_assemble_forward(first, tail);
            assert((first + tail).skip(first.len() as int) =~= tail);
        }
        assert(SingleLogEntry::<Data>::decode(bytes) == Ok::<_, DecodeError>(
            (entries[0], bytes.len()),
        )) by {
            assert(SingleLogEntry::<Data>::encodable(entries[0]));
            SingleLogEntry::<Data>::lemma_decode_encode(entries[0], Seq::empty());
            assert(bytes + Seq::<u8>::empty() =~= bytes);
        }
        assert(all_encodable::<Data>(rest)) by {
            assert forall|i: int| 0 <= i < rest.len() implies SingleLogEntry::<Data>::encodable(
                #[trigger] rest[i],
            ) by {
                assert(rest[i] == entries[i + 1]);
            }
        }
        lemma_forward_entries::<Data>(read.0, rest);
        assert(forward_entries::<Data>(it) == seq![entries[0]] + forward_entries::<Data>(read.0));
        assert(seq![entries[0]] + rest =~= entries);
    }
}

/// An iterator that hands out, going backward, the records of entries
/// that can be read back, last first, and then none, yields these
/// entries to a reader, last first.
pub proof fn lemma_backward_entries<Data: LogData>(
    it: WalIteratorView,
    entries: Seq<LogEntryView<KeyView<Data>, ValueView<Data>>>,
)
    requires
        it.wf(),
        all_encodable::<Data>(entries),
        backward_records(it) == entry_records::<Data>(entries).reverse(),
    ensures
        backward_entries::<Data>(it) == entries.reverse(),
    decreases entries.len(),
{
    let read = read_backward(it, Seq::empty(), SerializeState::Fresh);
    if entries.len() == 0 {
        assert(entry_records::<Data>(entries).reverse() =~= Seq::<RecordView>::empty());
        lemma_read_backward_records(it, Seq::empty(), SerializeState::Fresh);
        assert(backward_entries::<Data>(it) =~= entries.reverse());
    } else {
        let bytes = SingleLogEntry::<Data>::encode(entries.last());
        let last = split_records(bytes, MAX_RECORD_SIZE as nat);
        let front = entries.drop_last();
        let head = entry_records::<Data>(front);
        assert(read.1 == Ok::<Seq<u8>, SerializeError>(bytes) && backward_records(read.0)
            == head.reverse() && read.0.wf()) by {
            lemma_read_backward_records(it, Seq::empty(), SerializeState::Fresh);
            lemma_read_backward(it, Seq::empty(), SerializeState::Fresh);
            lemma_split_round_trip(bytes, MAX_RECORD_SIZE as nat);
            assert((head + last).reverse() =~= last.reverse() + head.reverse());
            lemma_assemble_backward(last, head.reverse());
            assert((last.reverse() + head.reverse()).skip(last.len() as int) =~= head.reverse());
        }
        assert(SingleLogEntry::<Data>::decode(bytes) == Ok::<_, DecodeError>(
            (entries.last(), bytes.len()),
        )) by {
            assert(SingleLogEntry::<Data>::encodable(entries[entries.len() - 1]));
            SingleLogEntry::<Data>::lemma_decode_encode(entries.last(), Seq::empty());
            assert(bytes + Seq::<u8>::empty() =~= bytes);
        }
        assert(all_encodable::<Data>(front)) by {
            assert forall|i: int| 0 <= i < front.len() implies SingleLogEntry::<Data>::encodable(
                #[trigger] front[i],
            ) by {
                assert(front[i] == entries[i]);
            }
        }
        lemma_backward_entries::<Data>(read.0, front);
        assert(backward_entries::<Data>(it) == seq![entries.last()] + backward_entries::<Data>(
            read.0,
        ));
        assert(seq![entries.last()] + front.reverse() =~= entries.reverse());
    }
}

/// The file of a log is what appending the records of its entries to
/// nothing leaves.
pub proof fn lemma_log_file_records<Data: LogData>(
    entries: Seq<LogEntryView<KeyView<Data>, ValueView<Data>>>,
)
    ensures
        log_file::<Data>(entries) == appended_all(Seq::empty(), entry_records::<Data>(entries)),
{
    let records = entry_records::<Data>(entries);
    lemma_entries_bytes_records::<Data>(0, entries);
    lemma_appended_all_bytes(Seq::empty(), records);
    vstd::arithmetic::div_mod::lemma_small_mod(0, 32768);
    assert(Seq::<u8>::empty().len() % (BLOCK_SIZE as nat) == 0);
    assert(Seq::<u8>::empty() + records_bytes(0, records) =~= records_bytes(0, records));
}

/// What a log writes, a reader reads: from the file of a log that began
/// empty and to which entries that can be read back were written, a
/// reader gets exactly these entries, going forward in their order and
/// going backward in the opposite order.
pub proof fn lemma_log_round_trip<Data: LogData>(
    entries: Seq<LogEntryView<KeyView<Data>, ValueView<Data>>>,
)
    requires
        all_encodable::<Data>(entries),
        log_file::<Data>(entries).len() <= u64::MAX,
    ensures
        forward_entries::<Data>(
            WalIteratorView::start(log_file::<Data>(entries), ReadDirection::Forward),
        ) == entries,
        backward_entries::<Data>(
            WalIteratorView::start(log_file::<Data>(entries), ReadDirection::Backward),
        ) == entries.reverse(),
{
    let file = log_file::<Data>(entries);
    let records = entry_records::<Data>(entries);
    let forward = WalIteratorView::start(file, ReadDirection::Forward);
    let backward = WalIteratorView::start(file, ReadDirection::Backward);
    assert(forward_records(forward) == records && backward_records(backward)
        == records.reverse()) by {
        lemma_log_file_records::<Data>(entries);
        lemma_entry_records_fit::<Data>(entries);
        lemma_appended_iteration(records);
    }
    assert(forward.wf()) by {
        lemma_start_wf(file, ReadDirection::Forward);
    }
    assert(backward.wf()) by {
        lemma_start_wf(file, ReadDirection::Backward);
    }
    lemma_forward_entries::<Data>(forward, entries);
    lemma_backward_entries::<Data>(backward, entries);
}

/// The records of entries that come in two runs are the records of the
/// first run, then of the second.
pub proof fn lemma_entry_records_concat<Data: LogData>(
    first: Seq<LogEntryView<KeyView<Data>, ValueView<Data>>>,
    second: Seq<LogEntryView<KeyView<Data>, ValueView<Data>>>,
)
    ensures
        entry_records::<Data>(first + second) == entry_records::<Data>(first) + entry_records::<
            Data,
        >(second),
    decreases second.len(),
{
    if second.len() == 0 {
        assert(first + second =~= first);
        assert(entry_records::<Data>(first) + entry_records::<Data>(second)
            =~= entry_records::<Data>(first));
    } else {
        assert((first + second).drop_last() =~= first + second.drop_last());
        assert((first + second).last() == second.last());
        lemma_entry_records_concat::<Data>(first, second.drop_last());
        assert(entry_records::<Data>(first + second) =~= entry_records::<Data>(first)
            + entry_records::<Data>(second));
    }
}

/// Writing entries in two goes writes what writing them in one go
/// writes: what a log hands out flush after flush makes up the file of
/// the log.
pub proof fn lemma_entries_bytes_concat<Data: LogData>(
    used: nat,
    first: Seq<LogEntryView<KeyView<Data>, ValueView<Data>>>,
    second: Seq<LogEntryView<KeyView<Data>, ValueView<Data>>>,
)
    ensures
        entries_bytes::<Data>(used, first + second) == entries_bytes::<Data>(used, first)
            + entries_bytes::<Data>(
            used_after(used, entries_bytes::<Data>(used, first).len()),
            second,
        ),
{
    let middle = used_after(used, entries_bytes::<Data>(used, first).len());
    lemma_entries_bytes_records::<Data>(used, first + second);
    lemma_entries_bytes_records::<Data>(used, first);
    lemma_entries_bytes_records::<Data>(middle, second);
    lemma_entry_records_concat::<Data>(first, second);
    lemma_records_bytes_concat(
        used,
        entry_records::<Data>(first),
        entry_records::<Data>(second),
    );
}

} // verus!
