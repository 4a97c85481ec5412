use crate::wal::record::{
    decode_record, Record, RecordError, RecordView, BLOCK_SIZE, HEADER_SIZE,
};
use vstd::prelude::*;
use vstd::slice::slice_subrange;

verus! {

/// The way an iterator last moved.
#[derive(Clone, Copy, Debug, PartialEq, Eq, Structural)]
pub enum ReadDirection {
    Forward,
    Backward,
}

/// Why a block gave no records.
#[derive(Clone, Copy, Debug, PartialEq, Eq, Structural)]
pub enum BlockError {
    /// No record could be read at the start of the block.
    EmptyBlock,
    /// The block lies before the start or behind the end of the file.
    OutOfBounds,
}

/// The most records that a block can hold.
pub const MAX_BLOCK_RECORDS: usize = 4681;

/// The records as mathematical values.
pub open spec fn record_views(records: Seq<Record>) -> Seq<RecordView> {
    Seq::new(records.len(), |i: int| records[i]@)
}

/// The records at the front of `bytes`, read one after the other until a
/// read fails: at padding, at a damaged record or at the end.
pub open spec fn parse_records(bytes: Seq<u8>) -> Seq<RecordView>
    decreases bytes.len(),
{
    match decode_record(bytes) {
        Ok(record) => seq![record] + parse_records(bytes.skip(record.total_len() as int)),
        Err(_) => Seq::empty(),
    }
}

/// Why the reading of records from `bytes` ends: the error of the first
/// read that fails.
pub open spec fn parse_end(bytes: Seq<u8>) -> RecordError
    decreases bytes.len(),
{
    match decode_record(bytes) {
        Ok(record) => parse_end(bytes.skip(record.total_len() as int)),
        Err(e) => e,
    }
}

/// The bytes of the block that starts at `pos`: up to `BLOCK_SIZE` bytes,
/// fewer at the end of the file.
pub open spec fn block_bytes(file: Seq<u8>, pos: int) -> Seq<u8> {
    if pos + BLOCK_SIZE <= file.len() {
        file.subrange(pos, pos + BLOCK_SIZE)
    } else {
        file.subrange(pos, file.len() as int)
    }
}

/// The records of the block that starts at `pos`, or why there are none.
pub open spec fn load(file: Seq<u8>, pos: int) -> Result<Seq<RecordView>, BlockError> {
    if pos < 0 || pos > file.len() {
        Err(BlockError::OutOfBounds)
    } else if parse_records(block_bytes(file, pos)).len() == 0 {
        Err(BlockError::EmptyBlock)
    } else {
        Ok(parse_records(block_bytes(file, pos)))
    }
}

/// The start of the last block of a file of `len` bytes; one block before
/// the start of the file where the file is empty.
pub open spec fn last_block_pos(len: nat) -> int {
    if len % (BLOCK_SIZE as nat) == 0 {
        len - BLOCK_SIZE
    } else {
        len - len % (BLOCK_SIZE as nat)
    }
}

/// The record at place `i` of a block, if the block has one there.
pub open spec fn record_at(block: Seq<RecordView>, i: int) -> Option<RecordView> {
    if 0 <= i < block.len() {
        Some(block[i])
    } else {
        None
    }
}

/// The highest block position that an iterator can stand at.
pub open spec fn max_pos() -> int {
    i64::MAX as int * BLOCK_SIZE as int
}

/// The lowest block position that an iterator can stand at.
pub open spec fn min_pos() -> int {
    i64::MIN as int * BLOCK_SIZE as int
}

/// Every record takes up at least a header, so a stretch of bytes holds
/// no more records than headers fit in.
pub proof fn lemma_parse_records_len(bytes: Seq<u8>)
    ensures
        HEADER_SIZE * parse_records(bytes).len() <= bytes.len(),
    decreases bytes.len(),
{
    match decode_record(bytes) {
        Ok(record) => {
            lemma_parse_records_len(bytes.skip(record.total_len() as int));
        },
        Err(_) => {},
    }
}

/// A block that loads has between one and `MAX_BLOCK_RECORDS` records.
pub proof fn lemma_load_len(file: Seq<u8>, pos: int)
    ensures
        load(file, pos) matches Ok(block) ==> 1 <= block.len() <= MAX_BLOCK_RECORDS,
{
    if 0 <= pos <= file.len() {
        lemma_parse_records_len(block_bytes(file, pos));
    }
}

/// The state of an iterator over a log file.
pub struct WalIteratorView {
    /// The bytes of the file.
    pub file: Seq<u8>,
    /// The position of the block that was asked for last.
    pub pos: int,
    /// The records of the block that was loaded last.
    pub block: Seq<RecordView>,
    /// The place in `block` of the record that was handed out last: -1
    /// before the first, the block's length behind the last.
    pub index: int,
    /// The way the iterator moved last.
    pub direction: ReadDirection,
}

impl WalIteratorView {
    /// The state is one that an iterator can be in.
    pub open spec fn wf(self) -> bool {
        &&& -1 <= self.index <= self.block.len()
        &&& self.block.len() <= MAX_BLOCK_RECORDS
        &&& min_pos() <= self.pos <= max_pos()
        &&& self.pos % (BLOCK_SIZE as int) == 0
    }

    /// The state of a new iterator: before the first record of the first
    /// block, or behind the last record of the last block.
    pub open spec fn start(file: Seq<u8>, direction: ReadDirection) -> WalIteratorView {
        let pos = match direction {
            ReadDirection::Forward => 0,
            ReadDirection::Backward => last_block_pos(file.len()),
        };
        let block = match load(file, pos) {
            Ok(block) => block,
            Err(_) => Seq::empty(),
        };
        WalIteratorView {
            file,
            pos,
            block,
            index: match direction {
                ReadDirection::Forward => -1,
                ReadDirection::Backward => block.len() as int,
            },
            direction,
        }
    }

    /// The state after a call of `next`. After moving backward, the
    /// iterator turns round on the spot. Else it steps to the next record
    /// of the block, or asks for the next block and steps to its first
    /// record where the block loads.
    pub open spec fn after_next(self) -> WalIteratorView {
        if self.direction == ReadDirection::Backward {
            WalIteratorView {
                file: self.file,
                pos: self.pos,
                block: self.block,
                index: self.index,
                direction: ReadDirection::Forward,
            }
        } else if self.index + 1 >= self.block.len() {
            if self.pos >= max_pos() {
                self
            } else {
                match load(self.file, self.pos + BLOCK_SIZE) {
                    Ok(block) => WalIteratorView {
                        file: self.file,
                        pos: self.pos + BLOCK_SIZE,
                        block,
                        index: 0,
                        direction: self.direction,
                    },
                    Err(_) => WalIteratorView {
                        file: self.file,
                        pos: self.pos + BLOCK_SIZE,
                        block: self.block,
                        index: self.index,
                        direction: self.direction,
                    },
                }
            }
        } else {
            WalIteratorView {
                file: self.file,
                pos: self.pos,
                block: self.block,
                index: self.index + 1,
                direction: self.direction,
            }
        }
    }

    /// The record that a call of `next` hands out.
    pub open spec fn next_item(self) -> Option<RecordView> {
        if self.direction == ReadDirection::Backward {
            record_at(self.block, self.index)
        } else if self.index + 1 >= self.block.len() {
            if self.pos >= max_pos() {
                None
            } else {
                match load(self.file, self.pos + BLOCK_SIZE) {
                    Ok(block) => record_at(block, 0),
                    Err(_) => None,
                }
            }
        } else {
            record_at(self.block, self.index + 1)
        }
    }

    /// The state after a call of `next_back`: the mirror image of
    /// `after_next`.
    pub open spec fn after_next_back(self) -> WalIteratorView {
        if self.direction == ReadDirection::Forward {
            WalIteratorView {
                file: self.file,
                pos: self.pos,
                block: self.block,
                index: self.index,
                direction: ReadDirection::Backward,
            }
        } else if self.index - 1 < 0 {
            if self.pos <= min_pos() {
                self
            } else {
                match load(self.file, self.pos - BLOCK_SIZE) {
                    Ok(block) => WalIteratorView {
                        file: self.file,
                        pos: self.pos - BLOCK_SIZE,
                        block,
                        index: block.len() - 1,
                        direction: self.direction,
                    },
                    Err(_) => WalIteratorView {
                        file: self.file,
                        pos: self.pos - BLOCK_SIZE,
                        block: self.block,
                        index: self.index,
                        direction: self.direction,
                    },
                }
            }
        } else {
            WalIteratorView {
                file: self.file,
                pos: self.pos,
                block: self.block,
                index: self.index - 1,
                direction: self.direction,
            }
        }
    }

    /// The record that a call of `next_back` hands out.
    pub open spec fn next_back_item(self) -> Option<RecordView> {
        if self.direction == ReadDirection::Forward {
            record_at(self.block, self.index)
        } else if self.index - 1 < 0 {
            if self.pos <= min_pos() {
                None
            } else {
                match load(self.file, self.pos - BLOCK_SIZE) {
                    Ok(block) => record_at(block, block.len() - 1),
                    Err(_) => None,
                }
            }
        } else {
            record_at(self.block, self.index - 1)
        }
    }

    /// A bound on the records that calls of `next` can still hand out.
    pub open spec fn forward_measure(self) -> nat {
        let turn: nat = if self.direction == ReadDirection::Backward {
            1
        } else {
            0
        };
        let in_block: nat = if self.index <= self.block.len() {
            (self.block.len() - self.index) as nat
        } else {
            0
        };
        let in_file: nat = if self.pos <= self.file.len() {
            (self.file.len() - self.pos) as nat
        } else {
            0
        };
        turn + in_block + in_file
    }

    /// A bound on the records that calls of `next_back` can still hand
    /// out.
    pub open spec fn backward_measure(self) -> nat {
        let turn: nat = if self.direction == ReadDirection::Forward {
            1
        } else {
            0
        };
        let in_block: nat = if self.index >= -1 {
            (self.index + 1) as nat
        } else {
            0
        };
        let in_file: nat = if self.pos >= 0 {
            self.pos as nat
        } else {
            0
        };
        turn + in_block + in_file
    }
}

/// A step keeps the state one that an iterator can be in.
pub proof fn lemma_steps_keep_wf(it: WalIteratorView)
    requires
        it.wf(),
    ensures
        it.after_next().wf(),
        it.after_next_back().wf(),
        it.after_next().file == it.file,
        it.after_next_back().file == it.file,
{
    lemma_load_len(it.file, it.pos + BLOCK_SIZE);
    lemma_load_len(it.file, it.pos - BLOCK_SIZE);
}

/// A call of `next` that hands out a record brings the end nearer.
pub proof fn lemma_next_decreases(it: WalIteratorView)
    ensures
        it.next_item() is Some ==> it.after_next().forward_measure() < it.forward_measure(),
{
    lemma_load_len(it.file, it.pos + BLOCK_SIZE);
}

/// A call of `next_back` that hands out a record brings the start nearer.
pub proof fn lemma_next_back_decreases(it: WalIteratorView)
    ensures
        it.next_back_item() is Some ==> it.after_next_back().backward_measure()
            < it.backward_measure(),
{
    lemma_load_len(it.file, it.pos - BLOCK_SIZE);
}

/// Turning round hands out the same record again: the call of `next_back`
/// that follows a call of `next` which handed out a record hands out that
/// record, and the other way round.
pub proof fn lemma_turn_repeats(it: WalIteratorView)
    requires
        it.wf(),
    ensures
        it.next_item() is Some ==> it.after_next().next_back_item() == it.next_item(),
        it.next_back_item() is Some ==> it.after_next_back().next_item() == it.next_back_item(),
        it.direction == ReadDirection::Forward && 0 <= it.index < it.block.len()
            ==> it.next_back_item() == Some(it.block[it.index]),
        it.direction == ReadDirection::Backward && 0 <= it.index < it.block.len()
            ==> it.next_item() == Some(it.block[it.index]),
{
    lemma_load_len(it.file, it.pos + BLOCK_SIZE);
    lemma_load_len(it.file, it.pos - BLOCK_SIZE);
}

/// Tells whether the block with the given number lies outside a file of
/// the given length: before its start, or with its start behind the end.
pub fn check_out_of_bounds(block_no: i64, file_length: usize) -> (r: Result<(), BlockError>)
    ensures
        r is Err <==> (block_no * BLOCK_SIZE < 0 || block_no * BLOCK_SIZE > file_length),
        r matches Err(e) ==> e == BlockError::OutOfBounds,
{
    if block_no < 0 || (block_no as u64) > ((file_length / (BLOCK_SIZE as usize)) as u64) {
        return Err(BlockError::OutOfBounds);
    }
    Ok(())
}

/// Reads the records of the block with the given number, which must not
/// lie outside the file.
pub fn load_block(file: &[u8], block_no: i64) -> (r: Result<Vec<Record>, BlockError>)
    requires
        0 <= block_no * BLOCK_SIZE <= file@.len(),
    ensures
        match load(file@, block_no * BLOCK_SIZE) {
            Ok(block) => r matches Ok(records) && record_views(records@) == block,
            Err(e) => r matches Err(e2) && e2 == e,
        },
{
    let len = file.len();
    let start: usize = (block_no as usize) * (BLOCK_SIZE as usize);
    let end: usize = if len - start > BLOCK_SIZE as usize {
        start + BLOCK_SIZE as usize
    } else {
        len
    };
    let mut bytes: &[u8] = slice_subrange(file, start, end);
    let ghost all = bytes@;
    assert(all =~= block_bytes(file@, block_no * BLOCK_SIZE));
    let mut block: Vec<Record> = Vec::new();
    let mut done = false;
    while !done
        invariant
            parse_records(all) =~= record_views(block@) + (if done {
                Seq::<RecordView>::empty()
            } else {
                parse_records(bytes@)
            }),
        decreases
                (if done {
                    0
                } else {
                    1 + bytes@.len()
                }),
    {
        let ghost before = block@;
        match Record::read(&mut bytes) {
            Ok(record) => {
                let ghost view = record@;
                block.push(record);
                assert(record_views(block@) =~= record_views(before).push(view));
            },
            Err(_) => {
                done = true;
            },
        }
    }
    if block.len() == 0 {
        return Err(BlockError::EmptyBlock);
    }
    Ok(block)
}

/// Tells why the reading of the block with the given number, which must
/// not lie outside the file, ends where it does: at padding or at a
/// record type that is none, at a damaged record, or at the end of the
/// bytes.
pub fn block_end(file: &[u8], block_no: i64) -> (e: RecordError)
    requires
        0 <= block_no * BLOCK_SIZE <= file@.len(),
    ensures
        e == parse_end(block_bytes(file@, block_no * BLOCK_SIZE)),
{
    let len = file.len();
    let start: usize = (block_no as usize) * (BLOCK_SIZE as usize);
    let end: usize = if len - start > BLOCK_SIZE as usize {
        start + BLOCK_SIZE as usize
    } else {
        len
    };
    let mut bytes: &[u8] = slice_subrange(file, start, end);
    let ghost all = bytes@;
    assert(all =~= block_bytes(file@, block_no * BLOCK_SIZE));
    loop
        invariant
            all == block_bytes(file@, block_no * BLOCK_SIZE),
            parse_end(all) == parse_end(bytes@),
        decreases bytes@.len(),
    {
        match Record::read(&mut bytes) {
            Ok(_) => {},
            Err(e) => {
                return e;
            },
        }
    }
}

/// Pages through the blocks of a file.
struct BlockManager<'a> {
    file: &'a [u8],
    block_no: i64,
    block: Vec<Record>,
}

impl<'a> BlockManager<'a> {
    spec fn pos(&self) -> int {
        self.block_no * BLOCK_SIZE
    }

    /// Stands at the first block, to read forward, or at the last, to read
    /// backward, and loads it if it can.
    fn new(file: &'a [u8], direction: &ReadDirection) -> (manager: BlockManager<'a>)
        ensures
            manager.file@ == file@,
            manager.pos() == WalIteratorView::start(file@, *direction).pos,
            record_views(manager.block@) == WalIteratorView::start(file@, *direction).block,
            manager.block@.len() <= MAX_BLOCK_RECORDS,
    {
        let file_len = file.len();
        let block_no: i64 = match *direction {
            ReadDirection::Forward => 0,
            ReadDirection::Backward => {
                let whole = file_len / (BLOCK_SIZE as usize);
                if file_len % (BLOCK_SIZE as usize) == 0 {
                    whole as i64 - 1
                } else {
                    whole as i64
                }
            },
        };
        proof {
            lemma_load_len(file@, block_no * BLOCK_SIZE);
            vstd::arithmetic::div_mod::lemma_fundamental_div_mod(file_len as int, 32768);
            assert(block_no * BLOCK_SIZE == WalIteratorView::start(file@, *direction).pos);
        }
        let block = match check_out_of_bounds(block_no, file_len) {
            Ok(()) => match load_block(file, block_no) {
                Ok(block) => block,
                Err(_) => Vec::new(),
            },
            Err(_) => Vec::new(),
        };
        assert(block@.len() == 0 ==> record_views(block@) =~= Seq::<RecordView>::empty());
        BlockManager { file, block_no, block }
    }

    /// Hands out the block that was loaded last.
    fn curr(&mut self) -> (block: Vec<Record>)
        ensures
            block == old(self).block,
            final(self).block@.len() == 0,
            final(self).file == old(self).file,
            final(self).block_no == old(self).block_no,
    {
        let mut block = Vec::new();
        core::mem::swap(&mut self.block, &mut block);
        block
    }

    /// Moves one block on and loads it.
    fn next(&mut self) -> (r: Result<(), BlockError>)
        ensures
            final(self).file == old(self).file,
            old(self).pos() >= max_pos() ==> r is Err && *final(self) == *old(self),
            old(self).pos() < max_pos() ==> final(self).pos() == old(self).pos() + BLOCK_SIZE
                && match load(old(self).file@, old(self).pos() + BLOCK_SIZE) {
                Ok(block) => r is Ok && record_views(final(self).block@) == block,
                Err(_) => r is Err && final(self).block == old(self).block,
            },
    {
        if self.block_no == i64::MAX {
            return Err(BlockError::OutOfBounds);
        }
        self.block_no += 1;
        check_out_of_bounds(self.block_no, self.file.len())?;
        self.block = load_block(self.file, self.block_no)?;
        Ok(())
    }

    /// Moves one block back and loads it.
    fn prev(&mut self) -> (r: Result<(), BlockError>)
        ensures
            final(self).file == old(self).file,
            old(self).pos() <= min_pos() ==> r is Err && *final(self) == *old(self),
            old(self).pos() > min_pos() ==> final(self).pos() == old(self).pos() - BLOCK_SIZE
                && match load(old(self).file@, old(self).pos() - BLOCK_SIZE) {
                Ok(block) => r is Ok && record_views(final(self).block@) == block,
                Err(_) => r is Err && final(self).block == old(self).block,
            },
    {
        if self.block_no == i64::MIN {
            return Err(BlockError::OutOfBounds);
        }
        self.block_no -= 1;
        check_out_of_bounds(self.block_no, self.file.len())?;
        self.block = load_block(self.file, self.block_no)?;
        Ok(())
    }
}

/// Iterator that reads through the write ahead log, block by block, in
/// either direction.
pub struct WalIterator<'a> {
    manager: BlockManager<'a>,
    direction: ReadDirection,
    block: Vec<Record>,
    index: i32,
}

impl<'a> View for WalIterator<'a> {
    type V = WalIteratorView;

    closed spec fn view(&self) -> WalIteratorView {
        WalIteratorView {
            file: self.manager.file@,
            pos: self.manager.pos(),
            block: record_views(self.block@),
            index: self.index as int,
            direction: self.direction,
        }
    }
}

impl<'a> WalIterator<'a> {
    /// The iterator is in a state that its methods keep up.
    pub closed spec fn wf(&self) -> bool {
        &&& self@.wf()
        &&& self.manager.block@.len() == 0
    }

    /// An iterator that its methods keep up is in a state that an
    /// iterator can be in.
    pub proof fn lemma_view_wf(&self)
        requires
            self.wf(),
        ensures
            self@.wf(),
    {
    }

    /// An iterator over the bytes of a log file, before the first record
    /// to read forward, behind the last to read backward.
    pub fn new(file: &'a [u8], direction: ReadDirection) -> (it: WalIterator<'a>)
        ensures
            it.wf(),
            it@ == WalIteratorView::start(file@, direction),
    {
        let mut manager = BlockManager::new(file, &direction);
        let block = manager.curr();
        let index: i32 = match direction {
            ReadDirection::Forward => -1,
            ReadDirection::Backward => block.len() as i32,
        };
        WalIterator { manager, direction, block, index }
    }

    /// The record at the current place, if there is one.
    fn current(&self) -> (r: Option<Record>)
        ensures
            match r {
                Some(record) => record_at(self@.block, self@.index) == Some(record@),
                None => record_at(self@.block, self@.index) is None,
            },
    {
        if 0 <= self.index && (self.index as usize) < self.block.len() {
            Some(self.block[self.index as usize].clone())
        } else {
            None
        }
    }

    /// Given the current position, move on to the next record and return
    /// it; after a move backward, return the record at the current
    /// position instead.
    pub fn next(&mut self) -> (r: Option<Record>)
        requires
            old(self).wf(),
        ensures
            final(self).wf(),
            final(self)@ == old(self)@.after_next(),
            match r {
                Some(record) => old(self)@.next_item() == Some(record@),
                None => old(self)@.next_item() is None,
            },
            r is Some ==> final(self)@.forward_measure() < old(self)@.forward_measure(),
    {
        proof {
            lemma_steps_keep_wf(self@);
            lemma_next_decreases(self@);
            lemma_load_len(self@.file, self@.pos + BLOCK_SIZE);
        }
        if self.direction == ReadDirection::Backward {
            self.direction = ReadDirection::Forward;
            return self.current();
        }
        if self.index + 1 >= self.block.len() as i32 {
            match self.manager.next() {
                Err(_) => {
                    return None;
                },
                Ok(()) => {},
            }
            self.block = self.manager.curr();
            self.index = 0;
        } else {
            self.index += 1;
        }
        self.current()
    }

    /// Given the current position, move back to the previous record and
    /// return it; after a move forward, return the record at the current
    /// position instead.
    pub fn next_back(&mut self) -> (r: Option<Record>)
        requires
            old(self).wf(),
        ensures
            final(self).wf(),
            final(self)@ == old(self)@.after_next_back(),
            match r {
                Some(record) => old(self)@.next_back_item() == Some(record@),
                None => old(self)@.next_back_item() is None,
            },
            r is Some ==> final(self)@.backward_measure() < old(self)@.backward_measure(),
    {
        proof {
            lemma_steps_keep_wf(self@);
            lemma_next_back_decreases(self@);
            lemma_load_len(self@.file, self@.pos - BLOCK_SIZE);
        }
        if self.direction == ReadDirection::Forward {
            self.direction = ReadDirection::Backward;
            return self.current();
        }
        if self.index - 1 < 0 {
            match self.manager.prev() {
                Err(_) => {
                    return None;
                },
                Ok(()) => {},
            }
            self.block = self.manager.curr();
            self.index = self.block.len() as i32 - 1;
        } else {
            self.index -= 1;
        }
        self.current()
    }
}

} // verus!
