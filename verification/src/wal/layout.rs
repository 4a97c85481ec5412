use crate::wal::iterator::{
    block_bytes, last_block_pos, lemma_load_len, lemma_next_back_decreases, lemma_next_decreases,
    lemma_steps_keep_wf, load, max_pos, min_pos, parse_records, ReadDirection, WalIteratorView,
};
use crate::wal::record::{decode_record, lemma_read_write, RecordView, BLOCK_SIZE};
use crate::wal::{appended, padding_len, zeros};
use vstd::prelude::*;

verus! {

/// A file after the records were appended to it, one after the other.
pub open spec fn appended_all(file: Seq<u8>, records: Seq<RecordView>) -> Seq<u8>
    decreases records.len(),
{
    if records.len() == 0 {
        file
    } else {
        appended(appended_all(file, records.drop_last()), records.last())
    }
}

/// The record can be appended and read back: its header tells the truth
/// and it is no longer than a block.
pub open spec fn fits(record: RecordView) -> bool {
    record.wf() && record.total_len() <= BLOCK_SIZE
}

/// Every one of the records can be appended and read back.
pub open spec fn all_fit(records: Seq<RecordView>) -> bool {
    forall|i: int| 0 <= i < records.len() ==> fits(#[trigger] records[i])
}

/// The records of the blocks of the file from the block at `pos` on.
pub open spec fn records_from(file: Seq<u8>, pos: int) -> Seq<RecordView>
    decreases
            (if pos < file.len() {
                file.len() - pos
            } else {
                0
            }),
{
    if pos < 0 || pos >= file.len() {
        Seq::empty()
    } else {
        parse_records(block_bytes(file, pos)) + records_from(file, pos + BLOCK_SIZE)
    }
}

/// Every block of the file from the block at `pos` on holds a record.
pub open spec fn blocks_load(file: Seq<u8>, pos: int) -> bool
    decreases
            (if pos < file.len() {
                file.len() - pos
            } else {
                0
            }),
{
    if pos < 0 || pos >= file.len() {
        true
    } else {
        parse_records(block_bytes(file, pos)).len() > 0 && blocks_load(file, pos + BLOCK_SIZE)
    }
}

/// The bytes are records one after the other, with nothing left over.
pub open spec fn parses_fully(bytes: Seq<u8>) -> bool
    decreases bytes.len(),
{
    if bytes.len() == 0 {
        true
    } else {
        match decode_record(bytes) {
            Ok(record) => parses_fully(bytes.skip(record.total_len() as int)),
            Err(_) => false,
        }
    }
}

/// The file is as appending leaves it: every block holds a record, and
/// the last block is records to its end.
pub open spec fn laid_out(file: Seq<u8>) -> bool {
    &&& blocks_load(file, 0)
    &&& file.len() > 0 ==> parses_fully(
        file.subrange(last_block_pos(file.len()), file.len() as int),
    )
}

/// A record that is read from bytes is read from them whatever follows.
pub proof fn lemma_decode_prefix(bytes: Seq<u8>, more: Seq<u8>)
    requires
        decode_record(bytes) is Ok,
    ensures
        decode_record(bytes + more) == decode_record(bytes),
        decode_record(bytes)->Ok_0.total_len() <= bytes.len(),
        (bytes + more).skip(decode_record(bytes)->Ok_0.total_len() as int) == bytes.skip(
            decode_record(bytes)->Ok_0.total_len() as int,
        ) + more,
{
    let all = bytes + more;
    let record = decode_record(bytes)->Ok_0;
    assert(all[0] == bytes[0]);
    assert(all.subrange(1, 5) =~= bytes.subrange(1, 5));
    assert(all.subrange(5, 7) =~= bytes.subrange(5, 7));
    assert(all.subrange(7, 7 + record.size) =~= bytes.subrange(7, 7 + record.size));
    assert(all.skip(record.total_len() as int) =~= bytes.skip(record.total_len() as int) + more);
}

/// Behind bytes that are records to their end, reading goes on with what
/// follows.
pub proof fn lemma_parse_concat(bytes: Seq<u8>, more: Seq<u8>)
    requires
        parses_fully(bytes),
    ensures
        parse_records(bytes + more) == parse_records(bytes) + parse_records(more),
        parses_fully(more) ==> parses_fully(bytes + more),
    decreases bytes.len(),
{
    if bytes.len() == 0 {
        assert(bytes + more =~= more);
        assert(parse_records(bytes) =~= Seq::empty());
        assert(parse_records(bytes) + parse_records(more) =~= parse_records(more));
    } else {
        let record = decode_record(bytes)->Ok_0;
        lemma_decode_prefix(bytes, more);
        let rest = bytes.skip(record.total_len() as int);
        lemma_parse_concat(rest, more);
        assert(parse_records(bytes + more) =~= parse_records(bytes) + parse_records(more));
    }
}

/// The bytes of a record that can be read back are that record, to their
/// end.
pub proof fn lemma_parse_one(record: RecordView)
    requires
        record.wf(),
    ensures
        parse_records(record.encode()) == seq![record],
        parses_fully(record.encode()),
        record.encode().len() == record.total_len(),
        record.encode().len() > 0,
{
    lemma_read_write(record, Seq::empty());
    let bytes = record.encode();
    assert(bytes + Seq::<u8>::empty() =~= bytes);
    assert(bytes.skip(record.total_len() as int) =~= Seq::<u8>::empty());
    assert(parse_records(Seq::<u8>::empty()) =~= Seq::<RecordView>::empty());
    assert(parse_records(bytes) =~= seq![record]);
    assert(parses_fully(Seq::<u8>::empty()));
    assert(parses_fully(bytes));
}

/// Padding holds no record.
pub proof fn lemma_parse_zeros(n: nat, more: Seq<u8>)
    requires
        n > 0,
    ensures
        parse_records(zeros(n) + more) == Seq::<RecordView>::empty(),
{
    let bytes = zeros(n) + more;
    assert(bytes[0] == 0);
}

/// Where the last block of a file begins and how long it is.
pub proof fn lemma_last_block(len: nat)
    requires
        len > 0,
    ensures
        0 <= last_block_pos(len) < len,
        last_block_pos(len) % 32768 == 0,
        len - last_block_pos(len) <= 32768,
        len % 32768 == 0 ==> len - last_block_pos(len) == 32768,
        len % 32768 != 0 ==> len - last_block_pos(len) == len % 32768,
{
    let q = len as int / 32768;
    vstd::arithmetic::div_mod::lemma_fundamental_div_mod(len as int, 32768);
    vstd::arithmetic::div_mod::lemma_mod_pos_bound(len as int, 32768);
    vstd::arithmetic::div_mod::lemma_mod_multiples_basic(q, 32768);
    vstd::arithmetic::div_mod::lemma_mod_multiples_basic(q - 1, 32768);
    assert(32768 * q == q * 32768);
    assert((q - 1) * 32768 == 32768 * q - 32768);
}

/// The last block of a file begins at the multiple of the block size
/// that lies less than a block and at least a byte before the end.
pub proof fn lemma_block_start(len: nat, pos: int)
    requires
        0 <= pos < len <= pos + 32768,
        pos % 32768 == 0,
    ensures
        last_block_pos(len) == pos,
{
    lemma_last_block(len);
    let other = last_block_pos(len);
    vstd::arithmetic::div_mod::lemma_fundamental_div_mod(pos, 32768);
    vstd::arithmetic::div_mod::lemma_fundamental_div_mod(other, 32768);
    let a = pos / 32768;
    let b = other / 32768;
    assert(pos == 32768 * a);
    assert(other == 32768 * b);
    assert(a == b);
}

/// The bytes of the file that lie in the block at `pos`, where the file
/// ends in that block.
proof fn lemma_end_block(file: Seq<u8>, pos: int)
    requires
        0 <= pos < file.len() <= pos + 32768,
    ensures
        block_bytes(file, pos) == file.subrange(pos, file.len() as int),
        records_from(file, pos) == parse_records(file.subrange(pos, file.len() as int)),
        blocks_load(file, pos) == (parse_records(file.subrange(pos, file.len() as int)).len() > 0),
{
    assert(block_bytes(file, pos) =~= file.subrange(pos, file.len() as int));
    assert(records_from(file, pos + BLOCK_SIZE) =~= Seq::<RecordView>::empty());
    assert(blocks_load(file, pos + BLOCK_SIZE));
    assert(records_from(file, pos) =~= parse_records(file.subrange(pos, file.len() as int)));
}

/// Appending to a file whose last block is full.
proof fn lemma_append_full(file: Seq<u8>, record: RecordView, last: int)
    requires
        fits(record),
        0 <= last,
        last + 32768 == file.len(),
        last % 32768 == 0,
        blocks_load(file, last),
    ensures
        appended(file, record) == file + record.encode(),
        blocks_load(appended(file, record), last),
        records_from(appended(file, record), last) == records_from(file, last).push(record),
        last_block_pos(appended(file, record).len()) == file.len(),
        parses_fully(
            appended(file, record).subrange(file.len() as int, appended(file, record).len() as int),
        ),
{
    let len = file.len();
    let after = appended(file, record);
    lemma_parse_one(record);
    vstd::arithmetic::div_mod::lemma_mod_add_multiples_vanish(last, 32768);
    assert(len % 32768 == 0);
    assert(zeros(0) + record.encode() =~= record.encode());
    assert(after =~= file + record.encode());
    vstd::arithmetic::div_mod::lemma_mod_add_multiples_vanish(last, 32768);
    lemma_block_start(after.len(), len as int);
    lemma_end_block(file, last);
    lemma_end_block(after, len as int);
    assert(after.subrange(len as int, after.len() as int) =~= record.encode());
    assert(block_bytes(after, last) =~= block_bytes(file, last));
    assert(records_from(after, last) =~= records_from(file, last).push(record));
}

/// Appending to a file whose last block has room for the record.
proof fn lemma_append_room(file: Seq<u8>, record: RecordView, last: int)
    requires
        fits(record),
        0 <= last < file.len(),
        file.len() + record.total_len() <= last + 32768,
        last % 32768 == 0,
        blocks_load(file, last),
        parses_fully(file.subrange(last, file.len() as int)),
    ensures
        appended(file, record) == file + record.encode(),
        blocks_load(appended(file, record), last),
        records_from(appended(file, record), last) == records_from(file, last).push(record),
        last_block_pos(appended(file, record).len()) == last,
        parses_fully(appended(file, record).subrange(last, appended(file, record).len() as int)),
{
    let len = file.len();
    let after = appended(file, record);
    let block = file.subrange(last, len as int);
    lemma_parse_one(record);
    lemma_block_start(len, last);
    lemma_last_block(len);
    assert(padding_len(len % 32768, record.total_len()) == 0);
    assert(zeros(0) + record.encode() =~= record.encode());
    assert(after =~= file + record.encode());
    lemma_block_start(after.len(), last);
    lemma_end_block(file, last);
    lemma_end_block(after, last);
    assert(after.subrange(last, after.len() as int) =~= block + record.encode());
    lemma_parse_concat(block, record.encode());
    assert(records_from(after, last) =~= records_from(file, last).push(record));
}

/// Appending to a file whose last block has no room for the record.
proof fn lemma_append_padded(file: Seq<u8>, record: RecordView, last: int)
    requires
        fits(record),
        0 <= last < file.len() < last + 32768,
        file.len() + record.total_len() > last + 32768,
        last % 32768 == 0,
        blocks_load(file, last),
        parses_fully(file.subrange(last, file.len() as int)),
    ensures
        blocks_load(appended(file, record), last),
        records_from(appended(file, record), last) == records_from(file, last).push(record),
        last_block_pos(appended(file, record).len()) == last + 32768,
        parses_fully(
            appended(file, record).subrange(last + 32768, appended(file, record).len() as int),
        ),
{
    let len = file.len();
    let after = appended(file, record);
    let block = file.subrange(last, len as int);
    let next = last + 32768;
    let pad = (next - len) as nat;
    lemma_parse_one(record);
    lemma_block_start(len, last);
    lemma_last_block(len);
    assert(len % 32768 == len - last);
    assert(padding_len(len % 32768, record.total_len()) == pad);
    assert(after =~= file + zeros(pad) + record.encode());
    vstd::arithmetic::div_mod::lemma_mod_add_multiples_vanish(last, 32768);
    lemma_block_start(after.len(), next);
    lemma_end_block(file, last);
    lemma_end_block(after, next);
    assert(after.subrange(next, after.len() as int) =~= record.encode());
    assert(block_bytes(after, last) =~= block + zeros(pad));
    lemma_parse_concat(block, zeros(pad));
    assert(zeros(pad) + Seq::<u8>::empty() =~= zeros(pad));
    lemma_parse_zeros(pad, Seq::empty());
    assert(parse_records(block + zeros(pad)) =~= parse_records(block));
    assert(records_from(after, last) =~= parse_records(block) + records_from(after, next));
    assert(records_from(after, last) =~= records_from(file, last).push(record));
}

/// Appending keeps the file in shape and adds the record to the records
/// of the file, seen from any block on.
proof fn lemma_append_from(file: Seq<u8>, record: RecordView, pos: int)
    requires
        file.len() > 0,
        fits(record),
        0 <= pos <= last_block_pos(file.len()),
        pos % 32768 == 0,
        blocks_load(file, pos),
        parses_fully(file.subrange(last_block_pos(file.len()), file.len() as int)),
    ensures
        blocks_load(appended(file, record), pos),
        records_from(appended(file, record), pos) == records_from(file, pos).push(record),
        appended(file, record).len() > 0,
        parses_fully(
            appended(file, record).subrange(
                last_block_pos(appended(file, record).len()),
                appended(file, record).len() as int,
            ),
        ),
    decreases file.len() - pos,
{
    let len = file.len();
    let last = last_block_pos(len);
    let after = appended(file, record);
    lemma_last_block(len);
    if pos < last {
        vstd::arithmetic::div_mod::lemma_fundamental_div_mod(pos, 32768);
        vstd::arithmetic::div_mod::lemma_fundamental_div_mod(last, 32768);
        vstd::arithmetic::div_mod::lemma_mod_add_multiples_vanish(pos, 32768);
        assert(pos + 32768 <= last);
        assert(block_bytes(after, pos) =~= block_bytes(file, pos));
        lemma_append_from(file, record, pos + 32768);
    } else if len == last + 32768 {
        lemma_append_full(file, record, last);
    } else if len + record.total_len() <= last + 32768 {
        lemma_append_room(file, record, last);
    } else {
        lemma_append_padded(file, record, last);
    }
}

/// Appending a record that can be read back keeps a file as appending
/// leaves it, and adds the record behind the records of the file.
pub proof fn lemma_append(file: Seq<u8>, record: RecordView)
    requires
        laid_out(file),
        fits(record),
    ensures
        laid_out(appended(file, record)),
        records_from(appended(file, record), 0) == records_from(file, 0).push(record),
{
    let after = appended(file, record);
    if file.len() == 0 {
        lemma_parse_one(record);
        assert(padding_len(0, record.total_len()) == 0);
        assert(after =~= record.encode());
        lemma_last_block(after.len());
        assert(last_block_pos(after.len()) == 0);
        assert(block_bytes(after, 0) =~= record.encode());
        assert(records_from(after, BLOCK_SIZE as int) =~= Seq::empty());
        assert(blocks_load(after, BLOCK_SIZE as int));
        assert(records_from(after, 0) =~= seq![record]);
        assert(records_from(file, 0) =~= Seq::empty());
        assert(after.subrange(0, after.len() as int) =~= record.encode());
    } else {
        lemma_last_block(file.len());
        lemma_append_from(file, record, 0);
    }
}

/// Padding invariance: a file made by appending records that can be read
/// back, to nothing, is as appending leaves it, and the records of its
/// blocks, in order, are the records appended, with none besides.
pub proof fn lemma_appended_records(records: Seq<RecordView>)
    requires
        all_fit(records),
    ensures
        laid_out(appended_all(Seq::empty(), records)),
        records_from(appended_all(Seq::empty(), records), 0) == records,
    decreases records.len(),
{
    if records.len() == 0 {
        assert(records_from(Seq::<u8>::empty(), 0) =~= records);
    } else {
        let front = records.drop_last();
        assert(all_fit(front)) by {
            assert forall|i: int| 0 <= i < front.len() implies fits(#[trigger] front[i]) by {
                assert(front[i] == records[i]);
            }
        }
        lemma_appended_records(front);
        assert(fits(records[records.len() - 1]));
        lemma_append(appended_all(Seq::empty(), front), records.last());
        assert(front.push(records.last()) =~= records);
    }
}

/// The records that calls of `next` hand out, one after the other, until
/// a call hands out none.
pub open spec fn forward_records(it: WalIteratorView) -> Seq<RecordView>
    decreases it.forward_measure(),
{
    match it.next_item() {
        Some(record) => {
            proof {
                lemma_next_decreases(it);
            }
            seq![record] + forward_records(it.after_next())
        },
        None => Seq::empty(),
    }
}

/// The records that calls of `next_back` hand out, one after the other,
/// until a call hands out none.
pub open spec fn backward_records(it: WalIteratorView) -> Seq<RecordView>
    decreases it.backward_measure(),
{
    match it.next_back_item() {
        Some(record) => {
            proof {
                lemma_next_back_decreases(it);
            }
            seq![record] + backward_records(it.after_next_back())
        },
        None => Seq::empty(),
    }
}

/// The records of the blocks of the file before the block at `pos`.
pub open spec fn records_upto(file: Seq<u8>, pos: int) -> Seq<RecordView>
    decreases
            (if pos > 0 {
                pos
            } else {
                0
            }),
{
    if pos <= 0 {
        Seq::empty()
    } else {
        records_upto(file, pos - BLOCK_SIZE) + parse_records(block_bytes(file, pos - BLOCK_SIZE))
    }
}

/// Where every block of a file holds a record, each block does, seen
/// from any block on.
pub proof fn lemma_block_loads(file: Seq<u8>, pos: int)
    requires
        blocks_load(file, 0),
        0 <= pos,
        pos % 32768 == 0,
    ensures
        blocks_load(file, pos),
    decreases pos,
{
    if pos > 0 {
        vstd::arithmetic::div_mod::lemma_fundamental_div_mod(pos, 32768);
        vstd::arithmetic::div_mod::lemma_mod_sub_multiples_vanish(pos, 32768);
        assert(pos >= 32768);
        lemma_block_loads(file, pos - 32768);
    }
}

/// The records before a block and the records from the block on are the
/// records of the file.
proof fn lemma_upto_from(file: Seq<u8>, pos: int)
    requires
        0 <= pos < file.len(),
        pos % 32768 == 0,
    ensures
        records_upto(file, pos) + records_from(file, pos) == records_from(file, 0),
    decreases pos,
{
    if pos == 0 {
        assert(records_upto(file, pos) + records_from(file, pos) =~= records_from(file, 0));
    } else {
        vstd::arithmetic::div_mod::lemma_fundamental_div_mod(pos, 32768);
        vstd::arithmetic::div_mod::lemma_mod_sub_multiples_vanish(pos, 32768);
        assert(pos >= 32768);
        let before = pos - 32768;
        lemma_upto_from(file, before);
        assert(records_from(file, before) == parse_records(block_bytes(file, before))
            + records_from(file, pos));
        assert(records_upto(file, pos) + records_from(file, pos) =~= records_upto(file, before)
            + records_from(file, before));
    }
}

/// An iterator that goes forward hands out the rest of its block, then
/// the records of the blocks behind the place that it has asked for last,
/// where these all hold a record.
pub proof fn lemma_forward_from(it: WalIteratorView)
    requires
        it.wf(),
        it.direction == ReadDirection::Forward,
        -BLOCK_SIZE <= it.pos,
        it.file.len() <= u64::MAX,
        blocks_load(it.file, it.pos + BLOCK_SIZE),
        it.index < it.block.len(),
    ensures
        forward_records(it) == it.block.skip(it.index + 1) + records_from(
            it.file,
            it.pos + BLOCK_SIZE,
        ),
    decreases it.forward_measure(),
{
    let file = it.file;
    let next = it.pos + BLOCK_SIZE;
    let after = it.after_next();
    lemma_steps_keep_wf(it);
    lemma_next_decreases(it);
    if it.index + 1 < it.block.len() {
        lemma_forward_from(after);
        assert(forward_records(it) =~= it.block.skip(it.index + 1) + records_from(file, next));
    } else {
        assert(it.block.skip(it.index + 1) =~= Seq::<RecordView>::empty());
        if next < file.len() {
            lemma_load_len(file, next);
            let block = parse_records(block_bytes(file, next));
            assert(load(file, next) is Ok && load(file, next)->Ok_0 == block);
            lemma_forward_from(after);
            assert(block =~= seq![block[0]] + block.skip(1));
            assert(forward_records(it) =~= records_from(file, next));
        } else {
            if next == file.len() {
                assert(block_bytes(file, next) =~= Seq::<u8>::empty());
                assert(parse_records(Seq::<u8>::empty()) =~= Seq::<RecordView>::empty());
            }
            assert(it.next_item() is None);
            assert(records_from(file, next) =~= Seq::<RecordView>::empty());
        }
        assert(forward_records(it) =~= it.block.skip(it.index + 1) + records_from(file, next));
    }
}

/// An iterator that goes backward through a file whose blocks all hold
/// a record hands out, last first, the records of its block before its
/// place, then the records of the blocks before.
pub proof fn lemma_backward_from(it: WalIteratorView)
    requires
        it.wf(),
        it.direction == ReadDirection::Backward,
        0 <= it.pos < it.file.len(),
        it.block == parse_records(block_bytes(it.file, it.pos)),
        blocks_load(it.file, 0),
        0 <= it.index <= it.block.len(),
    ensures
        backward_records(it) == (records_upto(it.file, it.pos) + it.block.take(
            it.index,
        )).reverse(),
    decreases it.backward_measure(),
{
    let file = it.file;
    let after = it.after_next_back();
    let before = records_upto(file, it.pos);
    lemma_steps_keep_wf(it);
    lemma_next_back_decreases(it);
    if it.index >= 1 {
        lemma_backward_from(after);
        let shorter = before + it.block.take(it.index - 1);
        let longer = before + it.block.take(it.index);
        assert(longer =~= shorter.push(it.block[it.index - 1]));
        assert(longer.reverse() =~= seq![it.block[it.index - 1]] + shorter.reverse());
    } else {
        assert(before + it.block.take(0) =~= before);
        if it.pos == 0 {
            assert(it.next_back_item() is None);
            assert(before.reverse() =~= Seq::<RecordView>::empty());
        } else {
            vstd::arithmetic::div_mod::lemma_fundamental_div_mod(it.pos, 32768);
            vstd::arithmetic::div_mod::lemma_mod_sub_multiples_vanish(it.pos, 32768);
            assert(it.pos >= 32768);
            let prev = it.pos - BLOCK_SIZE;
            lemma_block_loads(file, prev);
            lemma_load_len(file, prev);
            let block = parse_records(block_bytes(file, prev));
            assert(load(file, prev) is Ok && load(file, prev)->Ok_0 == block);
            lemma_backward_from(after);
            let shorter = records_upto(file, prev) + block.take(block.len() - 1);
            assert(before =~= shorter.push(block[block.len() - 1]));
            assert(before.reverse() =~= seq![block[block.len() - 1]] + shorter.reverse());
        }
    }
}

/// Going forward through a file whose blocks all hold a record, a new
/// iterator hands out the records of the blocks in their order, and then
/// none.
pub proof fn lemma_forward_iteration(file: Seq<u8>)
    requires
        blocks_load(file, 0),
        file.len() <= u64::MAX,
    ensures
        forward_records(WalIteratorView::start(file, ReadDirection::Forward)) == records_from(
            file,
            0,
        ),
{
    let it = WalIteratorView::start(file, ReadDirection::Forward);
    lemma_load_len(file, 0);
    if file.len() == 0 {
        assert(block_bytes(file, 0) =~= Seq::<u8>::empty());
        assert(parse_records(Seq::<u8>::empty()) =~= Seq::<RecordView>::empty());
    }
    lemma_forward_from(it);
    assert(it.block.skip(0) =~= it.block);
    if file.len() == 0 {
        assert(records_from(file, BLOCK_SIZE as int) =~= Seq::<RecordView>::empty());
    }
}

/// Bidirectional equivalence: going backward through a file whose
/// blocks all hold a record, a new iterator hands out the records that
/// going forward hands out, in the opposite order, and then none.
pub proof fn lemma_backward_iteration(file: Seq<u8>)
    requires
        blocks_load(file, 0),
        file.len() <= u64::MAX,
    ensures
        backward_records(WalIteratorView::start(file, ReadDirection::Backward)) == records_from(
            file,
            0,
        ).reverse(),
        backward_records(WalIteratorView::start(file, ReadDirection::Backward))
            == forward_records(WalIteratorView::start(file, ReadDirection::Forward)).reverse(),
{
    let it = WalIteratorView::start(file, ReadDirection::Backward);
    lemma_forward_iteration(file);
    if file.len() == 0 {
        assert(it.next_back_item() is None);
        assert(records_from(file, 0).reverse() =~= Seq::<RecordView>::empty());
    } else {
        let last = last_block_pos(file.len());
        lemma_last_block(file.len());
        lemma_block_loads(file, last);
        lemma_load_len(file, last);
        lemma_backward_from(it);
        lemma_upto_from(file, last);
        lemma_end_block(file, last);
        assert(it.block.take(it.index) =~= it.block);
        assert(block_bytes(file, last) =~= file.subrange(last, file.len() as int));
    }
}

/// The records of the blocks of the file from the block at `pos` on, as
/// far as each block holds a record.
pub open spec fn run_from(file: Seq<u8>, pos: int) -> Seq<RecordView>
    decreases
            (if pos < file.len() {
                file.len() - pos
            } else {
                0
            }),
{
    if pos < 0 || pos >= file.len() || parse_records(block_bytes(file, pos)).len() == 0 {
        Seq::empty()
    } else {
        parse_records(block_bytes(file, pos)) + run_from(file, pos + BLOCK_SIZE)
    }
}

/// The records of the blocks of the file from the block at `pos` back,
/// as far as each block holds a record, in the order of the file.
pub open spec fn run_upto(file: Seq<u8>, pos: int) -> Seq<RecordView>
    decreases
            (if pos >= 0 {
                pos + 1
            } else {
                0
            }),
{
    if pos < 0 || pos >= file.len() || parse_records(block_bytes(file, pos)).len() == 0 {
        Seq::empty()
    } else {
        run_upto(file, pos - BLOCK_SIZE) + parse_records(block_bytes(file, pos))
    }
}

/// A block loads where it lies in the file and holds a record.
proof fn lemma_load(file: Seq<u8>, pos: int)
    ensures
        load(file, pos) is Ok <==> 0 <= pos < file.len() && parse_records(
            block_bytes(file, pos),
        ).len() > 0,
        load(file, pos) matches Ok(block) ==> block == parse_records(block_bytes(file, pos)),
{
    if pos == file.len() {
        assert(block_bytes(file, pos) =~= Seq::<u8>::empty());
        assert(parse_records(Seq::<u8>::empty()) =~= Seq::<RecordView>::empty());
    }
}

/// In any file, an iterator that goes forward hands out the rest of its
/// block, then the records of the blocks behind the place that it has
/// asked for last, as far as each holds a record.
pub proof fn lemma_forward_run(it: WalIteratorView)
    requires
        it.wf(),
        it.direction == ReadDirection::Forward,
        -BLOCK_SIZE <= it.pos,
        it.file.len() <= u64::MAX,
        it.index < it.block.len(),
    ensures
        forward_records(it) == it.block.skip(it.index + 1) + run_from(
            it.file,
            it.pos + BLOCK_SIZE,
        ),
    decreases it.forward_measure(),
{
    let file = it.file;
    let next = it.pos + BLOCK_SIZE;
    let after = it.after_next();
    lemma_steps_keep_wf(it);
    lemma_next_decreases(it);
    lemma_load(file, next);
    if it.index + 1 < it.block.len() {
        lemma_forward_run(after);
        assert(forward_records(it) =~= it.block.skip(it.index + 1) + run_from(file, next));
    } else {
        assert(it.block.skip(it.index + 1) =~= Seq::<RecordView>::empty());
        if load(file, next) is Ok {
            lemma_load_len(file, next);
            let block = parse_records(block_bytes(file, next));
            lemma_forward_run(after);
            assert(block =~= seq![block[0]] + block.skip(1));
            assert(forward_records(it) =~= run_from(file, next));
        } else {
            assert(it.next_item() is None);
            assert(run_from(file, next) =~= Seq::<RecordView>::empty());
        }
        assert(forward_records(it) =~= it.block.skip(it.index + 1) + run_from(file, next));
    }
}

/// In any file, an iterator that goes backward hands out, last first,
/// the records of its block before its place, then the records of the
/// blocks before the place that it has asked for last, as far as each
/// holds a record.
pub proof fn lemma_backward_run(it: WalIteratorView)
    requires
        it.wf(),
        it.direction == ReadDirection::Backward,
        it.pos <= it.file.len(),
        it.file.len() <= u64::MAX,
        0 <= it.index <= it.block.len(),
    ensures
        backward_records(it) == (run_upto(it.file, it.pos - BLOCK_SIZE) + it.block.take(
            it.index,
        )).reverse(),
    decreases it.backward_measure(),
{
    let file = it.file;
    let prev = it.pos - BLOCK_SIZE;
    let after = it.after_next_back();
    let before = run_upto(file, prev);
    lemma_steps_keep_wf(it);
    lemma_next_back_decreases(it);
    lemma_load(file, prev);
    if it.index >= 1 {
        lemma_backward_run(after);
        let shorter = before + it.block.take(it.index - 1);
        let longer = before + it.block.take(it.index);
        assert(longer =~= shorter.push(it.block[it.index - 1]));
        assert(longer.reverse() =~= seq![it.block[it.index - 1]] + shorter.reverse());
    } else {
        assert(before + it.block.take(0) =~= before);
        if load(file, prev) is Ok {
            lemma_load_len(file, prev);
            let block = parse_records(block_bytes(file, prev));
            lemma_backward_run(after);
            let shorter = run_upto(file, prev - BLOCK_SIZE) + block.take(block.len() - 1);
            assert(before =~= shorter.push(block[block.len() - 1]));
            assert(before.reverse() =~= seq![block[block.len() - 1]] + shorter.reverse());
        } else {
            assert(it.next_back_item() is None);
            assert(before.reverse() =~= Seq::<RecordView>::empty());
        }
    }
}

/// The records that a new iterator hands out going forward through any
/// file: those of the blocks from the first on, as far as each holds a
/// record; from the second block on where the first holds none.
pub open spec fn forward_run(file: Seq<u8>) -> Seq<RecordView> {
    if load(file, 0) is Ok {
        run_from(file, 0)
    } else {
        run_from(file, BLOCK_SIZE as int)
    }
}

/// The records that a new iterator hands out going backward through any
/// file, in the order of the file: those of the blocks from the last
/// back, as far as each holds a record; from the block before the last
/// back where the last holds none.
pub open spec fn backward_run(file: Seq<u8>) -> Seq<RecordView> {
    let last = last_block_pos(file.len());
    if load(file, last) is Ok {
        run_upto(file, last)
    } else {
        run_upto(file, last - BLOCK_SIZE)
    }
}

/// Iteration of any file: a new iterator hands out, going forward, the
/// records of the run of blocks that begins the file, and going
/// backward, last first, the records of the run of blocks that ends it.
/// So the one is the other in the opposite order wherever the two runs
/// are the same blocks, as in a file whose blocks all hold a record.
pub proof fn lemma_iteration(file: Seq<u8>)
    requires
        file.len() <= u64::MAX,
    ensures
        forward_records(WalIteratorView::start(file, ReadDirection::Forward)) == forward_run(
            file,
        ),
        backward_records(WalIteratorView::start(file, ReadDirection::Backward)) == backward_run(
            file,
        ).reverse(),
        forward_run(file) == backward_run(file) ==> backward_records(
            WalIteratorView::start(file, ReadDirection::Backward),
        ) == forward_records(WalIteratorView::start(file, ReadDirection::Forward)).reverse(),
{
    let forward = WalIteratorView::start(file, ReadDirection::Forward);
    let backward = WalIteratorView::start(file, ReadDirection::Backward);
    let last = last_block_pos(file.len());
    lemma_load_len(file, 0);
    lemma_load_len(file, last);
    lemma_load(file, 0);
    lemma_load(file, last);
    lemma_start_wf(file, ReadDirection::Forward);
    lemma_start_wf(file, ReadDirection::Backward);
    lemma_forward_run(forward);
    assert(forward.block.skip(0) =~= forward.block);
    lemma_backward_run(backward);
    assert(backward.block.take(backward.index) =~= backward.block);
    if !(load(file, last) is Ok) {
        assert(run_upto(file, last - BLOCK_SIZE) + backward.block =~= run_upto(
            file,
            last - BLOCK_SIZE,
        ));
    }
    if !(load(file, 0) is Ok) {
        assert(forward.block + run_from(file, BLOCK_SIZE as int) =~= run_from(
            file,
            BLOCK_SIZE as int,
        ));
    }
}

/// The state of an iterator after `k` calls of `next`.
pub open spec fn after_nexts(it: WalIteratorView, k: nat) -> WalIteratorView
    decreases k,
{
    if k == 0 {
        it
    } else {
        after_nexts(it, (k - 1) as nat).after_next()
    }
}

/// The state of an iterator after `k` calls of `next_back`.
pub open spec fn after_next_backs(it: WalIteratorView, k: nat) -> WalIteratorView
    decreases k,
{
    if k == 0 {
        it
    } else {
        after_next_backs(it, (k - 1) as nat).after_next_back()
    }
}

/// The iterator stands on a record of the block that it holds, which is
/// a block of its file.
pub open spec fn stands_on(it: WalIteratorView) -> bool {
    &&& it.wf()
    &&& it.file.len() <= u64::MAX
    &&& 0 <= it.pos < it.file.len()
    &&& it.block == parse_records(block_bytes(it.file, it.pos))
    &&& 0 <= it.index < it.block.len()
}

/// The records of the file up to the record that the iterator stands
/// on, as far back as each block holds a record.
pub open spec fn upto_place(it: WalIteratorView) -> Seq<RecordView> {
    run_upto(it.file, it.pos - BLOCK_SIZE) + it.block.take(it.index + 1)
}

/// The records of the file from the record that the iterator stands on,
/// as far as each block holds a record.
pub open spec fn from_place(it: WalIteratorView) -> Seq<RecordView> {
    it.block.skip(it.index) + run_from(it.file, it.pos + BLOCK_SIZE)
}

/// Going forward, an iterator that stands on a record and hands out a
/// record stands on that record afterwards.
proof fn lemma_step_forward(it: WalIteratorView)
    requires
        stands_on(it),
        it.direction == ReadDirection::Forward,
        it.next_item() is Some,
    ensures
        stands_on(it.after_next()),
        it.after_next().direction == ReadDirection::Forward,
        it.after_next().file == it.file,
        upto_place(it.after_next()) == upto_place(it).push(it.next_item()->0),
{
    let file = it.file;
    let next = it.pos + BLOCK_SIZE;
    let after = it.after_next();
    lemma_steps_keep_wf(it);
    lemma_load(file, next);
    lemma_load_len(file, next);
    if it.index + 1 < it.block.len() {
        assert(after.block.take(after.index + 1) =~= it.block.take(it.index + 1).push(
            it.block[it.index + 1],
        ));
        assert(upto_place(after) =~= upto_place(it).push(it.block[it.index + 1]));
    } else {
        assert(it.block.take(it.index + 1) =~= it.block);
        assert(run_upto(file, it.pos) == run_upto(file, it.pos - BLOCK_SIZE) + it.block);
        assert(after.block.take(1) =~= seq![after.block[0]]);
        assert(upto_place(after) =~= upto_place(it).push(after.block[0]));
    }
}

/// Going backward, an iterator that stands on a record and hands out a
/// record stands on that record afterwards.
proof fn lemma_step_backward(it: WalIteratorView)
    requires
        stands_on(it),
        it.direction == ReadDirection::Backward,
        it.next_back_item() is Some,
    ensures
        stands_on(it.after_next_back()),
        it.after_next_back().direction == ReadDirection::Backward,
        it.after_next_back().file == it.file,
        from_place(it.after_next_back()) == seq![it.next_back_item()->0] + from_place(it),
{
    let file = it.file;
    let prev = it.pos - BLOCK_SIZE;
    let after = it.after_next_back();
    lemma_steps_keep_wf(it);
    lemma_load(file, prev);
    lemma_load_len(file, prev);
    if it.index - 1 >= 0 {
        assert(after.block.skip(after.index) =~= seq![it.block[it.index - 1]] + it.block.skip(
            it.index,
        ));
        assert(from_place(after) =~= seq![it.block[it.index - 1]] + from_place(it));
    } else {
        assert(it.block.skip(it.index) =~= it.block);
        assert(run_from(file, it.pos) == it.block + run_from(file, it.pos + BLOCK_SIZE));
        assert(after.block.skip(after.index) =~= seq![after.block[after.index]]);
        assert(from_place(after) =~= seq![after.block[after.index]] + from_place(it));
    }
}

/// The first record that a new iterator hands out going forward, and
/// where it stands then.
proof fn lemma_first_next(file: Seq<u8>)
    requires
        file.len() <= u64::MAX,
        WalIteratorView::start(file, ReadDirection::Forward).next_item() is Some,
    ensures
        ({
            let start = WalIteratorView::start(file, ReadDirection::Forward);
            &&& stands_on(start.after_next())
            &&& start.after_next().direction == ReadDirection::Forward
            &&& start.after_next().file == file
            &&& upto_place(start.after_next()) == seq![start.next_item()->0]
        }),
{
    let start = WalIteratorView::start(file, ReadDirection::Forward);
    let after = start.after_next();
    lemma_start_wf(file, ReadDirection::Forward);
    lemma_load(file, 0);
    lemma_load(file, BLOCK_SIZE as int);
    lemma_load_len(file, 0);
    lemma_load_len(file, BLOCK_SIZE as int);
    lemma_steps_keep_wf(start);
    assert(run_upto(file, -BLOCK_SIZE) =~= Seq::<RecordView>::empty());
    assert(after.block.take(1) =~= seq![after.block[0]]);
    if !(load(file, 0) is Ok) {
        assert(run_upto(file, 0) =~= Seq::<RecordView>::empty());
    }
    assert(upto_place(after) =~= seq![after.block[0]]);
}

/// The first record that a new iterator hands out going backward, and
/// where it stands then.
proof fn lemma_first_next_back(file: Seq<u8>)
    requires
        file.len() <= u64::MAX,
        WalIteratorView::start(file, ReadDirection::Backward).next_back_item() is Some,
    ensures
        ({
            let start = WalIteratorView::start(file, ReadDirection::Backward);
            &&& stands_on(start.after_next_back())
            &&& start.after_next_back().direction == ReadDirection::Backward
            &&& start.after_next_back().file == file
            &&& from_place(start.after_next_back()) == seq![start.next_back_item()->0]
        }),
{
    let start = WalIteratorView::start(file, ReadDirection::Backward);
    let after = start.after_next_back();
    let last = last_block_pos(file.len());
    lemma_start_wf(file, ReadDirection::Backward);
    lemma_load(file, last);
    lemma_load(file, last - BLOCK_SIZE);
    lemma_load_len(file, last);
    lemma_load_len(file, last - BLOCK_SIZE);
    lemma_steps_keep_wf(start);
    assert(file.len() > 0);
    lemma_last_block(file.len());
    assert(run_from(file, last + BLOCK_SIZE) =~= Seq::<RecordView>::empty());
    assert(after.block.skip(after.index) =~= seq![after.block[after.index]]);
    if !(load(file, last) is Ok) {
        assert(run_from(file, last) =~= Seq::<RecordView>::empty());
    }
    assert(from_place(after) =~= seq![after.block[after.index]]);
}

/// Where a new iterator stands after it has handed out `k` records
/// going forward: on the last of them, with the records handed out up
/// to its place and the records to come behind it.
proof fn lemma_after_nexts(file: Seq<u8>, k: nat)
    requires
        file.len() <= u64::MAX,
        1 <= k <= forward_records(WalIteratorView::start(file, ReadDirection::Forward)).len(),
    ensures
        ({
            let all = forward_records(WalIteratorView::start(file, ReadDirection::Forward));
            let it = after_nexts(WalIteratorView::start(file, ReadDirection::Forward), k);
            &&& stands_on(it)
            &&& it.file == file
            &&& it.direction == ReadDirection::Forward
            &&& upto_place(it) == all.take(k as int)
            &&& forward_records(it) == all.skip(k as int)
        }),
    decreases k,
{
    let start = WalIteratorView::start(file, ReadDirection::Forward);
    let all = forward_records(start);
    let prev = after_nexts(start, (k - 1) as nat);
    let it = after_nexts(start, k);
    assert(it == prev.after_next());
    if k == 1 {
        assert(prev == start);
        lemma_first_next(file);
        assert(all =~= seq![start.next_item()->0] + forward_records(it));
        assert(all.skip(1) =~= forward_records(it));
        assert(all.take(1) =~= seq![start.next_item()->0]);
    } else {
        lemma_after_nexts(file, (k - 1) as nat);
        assert(forward_records(prev).len() >= 1);
        assert(prev.next_item() is Some);
        let item = prev.next_item()->0;
        assert(forward_records(prev) =~= seq![item] + forward_records(it));
        assert(all.skip(k - 1)[0] == all[k - 1]);
        assert(item == all[k - 1]);
        lemma_step_forward(prev);
        assert(all.skip(k as int) =~= all.skip(k - 1).skip(1));
        assert(all.take(k as int) =~= all.take(k - 1).push(all[k - 1]));
    }
}

/// Direction reversal after going forward, in any file: a new iterator
/// that has handed out `k` records going forward and is turned round
/// hands out these `k` records, last first: the record that it handed
/// out last once more, then the record before that one, and so on to
/// the first, and then none.
pub proof fn lemma_turn_after_nexts(file: Seq<u8>, k: nat)
    requires
        file.len() <= u64::MAX,
        1 <= k <= forward_records(WalIteratorView::start(file, ReadDirection::Forward)).len(),
    ensures
        backward_records(
            after_nexts(WalIteratorView::start(file, ReadDirection::Forward), k),
        ) == forward_records(WalIteratorView::start(file, ReadDirection::Forward)).take(
            k as int,
        ).reverse(),
{
    let it = after_nexts(WalIteratorView::start(file, ReadDirection::Forward), k);
    lemma_after_nexts(file, k);
    lemma_steps_keep_wf(it);
    let turned = it.after_next_back();
    assert(it.next_back_item() == Some(it.block[it.index]));
    lemma_backward_run(turned);
    let before = run_upto(file, it.pos - BLOCK_SIZE);
    let shorter = before + it.block.take(it.index);
    let longer = before + it.block.take(it.index + 1);
    assert(longer =~= shorter.push(it.block[it.index]));
    assert(longer.reverse() =~= seq![it.block[it.index]] + shorter.reverse());
}

/// Where a new iterator stands after it has handed out `k` records
/// going backward: on the last of them, with the records handed out from
/// its place on and the records to come before it.
proof fn lemma_after_next_backs(file: Seq<u8>, k: nat)
    requires
        file.len() <= u64::MAX,
        1 <= k <= backward_records(WalIteratorView::start(file, ReadDirection::Backward)).len(),
    ensures
        ({
            let all = backward_records(WalIteratorView::start(file, ReadDirection::Backward));
            let it = after_next_backs(WalIteratorView::start(file, ReadDirection::Backward), k);
            &&& stands_on(it)
            &&& it.file == file
            &&& it.direction == ReadDirection::Backward
            &&& from_place(it) == all.take(k as int).reverse()
            &&& backward_records(it) == all.skip(k as int)
        }),
    decreases k,
{
    let start = WalIteratorView::start(file, ReadDirection::Backward);
    let all = backward_records(start);
    let prev = after_next_backs(start, (k - 1) as nat);
    let it = after_next_backs(start, k);
    assert(it == prev.after_next_back());
    if k == 1 {
        assert(prev == start);
        lemma_first_next_back(file);
        assert(all =~= seq![start.next_back_item()->0] + backward_records(it));
        assert(all.skip(1) =~= backward_records(it));
        assert(all.take(1).reverse() =~= seq![start.next_back_item()->0]);
    } else {
        lemma_after_next_backs(file, (k - 1) as nat);
        assert(backward_records(prev).len() >= 1);
        assert(prev.next_back_item() is Some);
        let item = prev.next_back_item()->0;
        assert(backward_records(prev) =~= seq![item] + backward_records(it));
        assert(all.skip(k - 1)[0] == all[k - 1]);
        assert(item == all[k - 1]);
        lemma_step_backward(prev);
        assert(all.skip(k as int) =~= all.skip(k - 1).skip(1));
        assert(all.take(k as int).reverse() =~= seq![all[k - 1]] + all.take(k - 1).reverse());
    }
}

/// Direction reversal after going backward, in any file: a new
/// iterator that has handed out `k` records going backward and is
/// turned round hands out these `k` records in the order of the file:
/// the record that it handed out last once more, then the record behind
/// that one, and so on to the last, and then none.
pub proof fn lemma_turn_after_next_backs(file: Seq<u8>, k: nat)
    requires
        file.len() <= u64::MAX,
        1 <= k <= backward_records(WalIteratorView::start(file, ReadDirection::Backward)).len(),
    ensures
        forward_records(
            after_next_backs(WalIteratorView::start(file, ReadDirection::Backward), k),
        ) == backward_records(WalIteratorView::start(file, ReadDirection::Backward)).take(
            k as int,
        ).reverse(),
{
    let it = after_next_backs(WalIteratorView::start(file, ReadDirection::Backward), k);
    lemma_after_next_backs(file, k);
    lemma_steps_keep_wf(it);
    let turned = it.after_next();
    assert(it.next_item() == Some(it.block[it.index]));
    lemma_forward_run(turned);
    assert(it.block.skip(it.index) =~= seq![it.block[it.index]] + it.block.skip(it.index + 1));
    assert(forward_records(it) =~= from_place(it));
}

/// A new iterator is in a state that an iterator can be in, and stands
/// no further than the end of its file.
pub proof fn lemma_start_wf(file: Seq<u8>, direction: ReadDirection)
    requires
        file.len() <= u64::MAX,
    ensures
        WalIteratorView::start(file, direction).wf(),
        -BLOCK_SIZE <= WalIteratorView::start(file, direction).pos <= file.len(),
{
    let it = WalIteratorView::start(file, direction);
    lemma_load_len(file, it.pos);
    vstd::arithmetic::div_mod::lemma_mod_multiples_basic(-1, 32768);
    vstd::arithmetic::div_mod::lemma_mod_multiples_basic(0, 32768);
    assert((-32768int) % 32768 == 0);
    assert(0int % 32768 == 0);
    if file.len() > 0 {
        lemma_last_block(file.len());
    }
    assert(it.pos % 32768 == 0);
    assert(-32768 <= it.pos <= u64::MAX);
    assert(min_pos() <= -32768);
    assert(u64::MAX <= max_pos());
}

/// Padding invariance, as iterators see it: over a file made by
/// appending records that can be read back, to nothing, a new iterator
/// hands out exactly these records, going forward in their order and
/// going backward in the opposite order.
pub proof fn lemma_appended_iteration(records: Seq<RecordView>)
    requires
        all_fit(records),
        appended_all(Seq::empty(), records).len() <= u64::MAX,
    ensures
        forward_records(
            WalIteratorView::start(appended_all(Seq::empty(), records), ReadDirection::Forward),
        ) == records,
        backward_records(
            WalIteratorView::start(appended_all(Seq::empty(), records), ReadDirection::Backward),
        ) == records.reverse(),
{
    let file = appended_all(Seq::empty(), records);
    lemma_appended_records(records);
    lemma_forward_iteration(file);
    lemma_backward_iteration(file);
}

/// Running off the start, in any file: a new iterator that has handed
/// out every record that it finds going backward, and at least one,
/// hands out none when it is asked for one more; turned round after
/// that, it hands out the records of the block that it stands in, and
/// then the records that it has handed out, in the order of the file,
/// which begin with the records of that block once more.
pub proof fn lemma_run_off(file: Seq<u8>)
    requires
        file.len() <= u64::MAX,
        backward_records(WalIteratorView::start(file, ReadDirection::Backward)).len() >= 1,
    ensures
        ({
            let all = backward_records(WalIteratorView::start(file, ReadDirection::Backward));
            let it = after_next_backs(
                WalIteratorView::start(file, ReadDirection::Backward),
                all.len(),
            );
            &&& it.next_back_item() is None
            &&& forward_records(it.after_next_back()) == parse_records(
                block_bytes(file, it.pos),
            ) + all.reverse()
        }),
{
    let all = backward_records(WalIteratorView::start(file, ReadDirection::Backward));
    let it = after_next_backs(WalIteratorView::start(file, ReadDirection::Backward), all.len());
    lemma_after_next_backs(file, all.len());
    assert(all.skip(all.len() as int) =~= Seq::<RecordView>::empty());
    assert(all.take(all.len() as int) =~= all);
    assert(it.next_back_item() is None);
    lemma_steps_keep_wf(it);
    lemma_load(file, it.pos - BLOCK_SIZE);
    let off = it.after_next_back();
    assert(it.index == 0);
    lemma_steps_keep_wf(off);
    let turned = off.after_next();
    assert(off.next_item() == Some(it.block[0]));
    lemma_forward_run(turned);
    assert(it.block =~= seq![it.block[0]] + it.block.skip(1));
    assert(run_from(file, it.pos) == it.block + run_from(file, it.pos + BLOCK_SIZE));
    assert(it.block.skip(0) =~= it.block);
    assert(forward_records(off) =~= it.block + from_place(it));
}

} // verus!
