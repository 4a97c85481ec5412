use crate::wal::serializable::{
    lemma_u16_be_round_trip, lemma_u32_be_round_trip, put_bytes, read_u16_be, read_u32_be,
    u16_be_bytes, u16_from_be, u32_be_bytes, u32_from_be, write_u16_be, write_u32_be,
};
use vstd::prelude::*;
use vstd::slice::{slice_subrange, slice_to_vec};

verus! {

/// Size of a block of the log file: 32 KiB.
pub const BLOCK_SIZE: i64 = 32768;

/// Size of a record's header: 7 bytes.
pub const HEADER_SIZE: usize = 7;

/// The place of a record in the entry it carries a piece of.
#[derive(Clone, Copy, Debug, PartialEq, Eq, Structural)]
pub enum RecordType {
    /// The only record of an empty entry.
    Zero,
    /// The only record of an entry.
    Full,
    /// The first of several records.
    First,
    /// Neither the first nor the last of several records.
    Middle,
    /// The last of several records.
    Last,
}

impl RecordType {
    /// The byte that stands for the type in a record's header. No type has
    /// the byte 0, which marks padding.
    pub open spec fn tag(self) -> u8 {
        match self {
            RecordType::Zero => 1,
            RecordType::Full => 2,
            RecordType::First => 3,
            RecordType::Middle => 4,
            RecordType::Last => 5,
        }
    }

    /// The type that the header byte `n` stands for, if any.
    pub open spec fn of_tag(n: u8) -> Option<RecordType> {
        if n == 1 {
            Some(RecordType::Zero)
        } else if n == 2 {
            Some(RecordType::Full)
        } else if n == 3 {
            Some(RecordType::First)
        } else if n == 4 {
            Some(RecordType::Middle)
        } else if n == 5 {
            Some(RecordType::Last)
        } else {
            None
        }
    }

    /// The type that the header byte `n` stands for: one of 1 to 5.
    pub fn from_u8(n: u8) -> (r: Option<RecordType>)
        ensures
            r == Self::of_tag(n),
            r is Some <==> 1 <= n <= 5,
            r matches Some(t) ==> t.tag() == n,
    {
        match n {
            1 => Some(RecordType::Zero),
            2 => Some(RecordType::Full),
            3 => Some(RecordType::First),
            4 => Some(RecordType::Middle),
            5 => Some(RecordType::Last),
            _ => None,
        }
    }

    /// The byte that stands for the type in a record's header.
    pub fn to_u8(self) -> (n: u8)
        ensures
            n == self.tag(),
            1 <= n <= 5,
            Self::of_tag(n) == Some(self),
    {
        match self {
            RecordType::Zero => 1,
            RecordType::Full => 2,
            RecordType::First => 3,
            RecordType::Middle => 4,
            RecordType::Last => 5,
        }
    }
}

/// Why no record could be read.
#[derive(Clone, Copy, Debug, PartialEq, Eq, Structural)]
pub enum RecordError {
    /// The first byte of the header is not a record type. A zero byte there
    /// is padding.
    InvalidRecordType,
    /// The checksum in the header is not that of the payload.
    CorruptRecord,
    /// The bytes end before the header or the payload does.
    ShortRead,
}

/// The CRC-32 (IEEE) checksum of `bytes`.
pub uninterp spec fn crc32_ieee(bytes: Seq<u8>) -> u32;

/// `crc::crc32::checksum_ieee`: the CRC-32 (IEEE) checksum of `bytes`, which
/// depends on the bytes alone.
#[verifier::external_body]
pub(crate) fn checksum_ieee(bytes: &[u8]) -> (sum: u32)
    ensures
        sum == crc32_ieee(bytes@),
{
    crc::crc32::checksum_ieee(bytes)
}

/// A single entry of the write ahead log stored in blocks: a header of
/// type, checksum and payload size, and the payload.
#[derive(Debug, PartialEq)]
pub struct Record {
    pub crc: u32,
    pub size: u16,
    pub record_type: RecordType,
    pub payload: Vec<u8>,
}

/// A record as a mathematical value.
pub struct RecordView {
    pub crc: u32,
    pub size: u16,
    pub record_type: RecordType,
    pub payload: Seq<u8>,
}

impl View for Record {
    type V = RecordView;

    open spec fn view(&self) -> RecordView {
        RecordView {
            crc: self.crc,
            size: self.size,
            record_type: self.record_type,
            payload: self.payload@,
        }
    }
}

impl RecordView {
    /// The header tells the truth: the size is the payload's length and
    /// the checksum is the payload's.
    pub open spec fn wf(self) -> bool {
        &&& self.size == self.payload.len()
        &&& self.crc == crc32_ieee(self.payload)
    }

    /// The seven bytes of the header.
    pub open spec fn header(self) -> Seq<u8> {
        seq![self.record_type.tag()] + u32_be_bytes(self.crc) + u16_be_bytes(self.size)
    }

    /// The bytes of the record in the log: header, then payload.
    pub open spec fn encode(self) -> Seq<u8> {
        self.header() + self.payload
    }

    /// The number of bytes that the record takes up in the log.
    pub open spec fn total_len(self) -> nat {
        HEADER_SIZE as nat + self.payload.len()
    }

    /// The record of the given type that carries `payload`.
    pub open spec fn of(record_type: RecordType, payload: Seq<u8>) -> RecordView {
        RecordView {
            crc: crc32_ieee(payload),
            size: (payload.len() % 0x1_0000) as u16,
            record_type,
            payload,
        }
    }
}

/// The record at the front of `bytes` as its header and the bytes behind
/// it give it, with the checksum not looked at, or why there is none. The
/// checks come in this order: seven bytes of header, a record type in the
/// first byte, as many payload bytes as the header says.
pub open spec fn decode_unverified(bytes: Seq<u8>) -> Result<RecordView, RecordError> {
    if bytes.len() < HEADER_SIZE {
        Err(RecordError::ShortRead)
    } else if RecordType::of_tag(bytes[0]) is None {
        Err(RecordError::InvalidRecordType)
    } else if bytes.len() < HEADER_SIZE + u16_from_be(bytes.subrange(5, 7)) {
        Err(RecordError::ShortRead)
    } else {
        Ok(
            RecordView {
                crc: u32_from_be(bytes.subrange(1, 5)),
                size: u16_from_be(bytes.subrange(5, 7)),
                record_type: RecordType::of_tag(bytes[0])->Some_0,
                payload: bytes.subrange(7, 7 + u16_from_be(bytes.subrange(5, 7))),
            },
        )
    }
}

/// The record at the front of `bytes`, or why there is none. The checks
/// come in this order: seven bytes of header, a record type in the first
/// byte, as many payload bytes as the header says, a matching checksum.
pub open spec fn decode_record(bytes: Seq<u8>) -> Result<RecordView, RecordError> {
    if bytes.len() < HEADER_SIZE {
        Err(RecordError::ShortRead)
    } else if RecordType::of_tag(bytes[0]) is None {
        Err(RecordError::InvalidRecordType)
    } else if bytes.len() < HEADER_SIZE + u16_from_be(bytes.subrange(5, 7)) {
        Err(RecordError::ShortRead)
    } else if crc32_ieee(bytes.subrange(7, 7 + u16_from_be(bytes.subrange(5, 7))))
        != u32_from_be(bytes.subrange(1, 5)) {
        Err(RecordError::CorruptRecord)
    } else {
        Ok(
            RecordView {
                crc: u32_from_be(bytes.subrange(1, 5)),
                size: u16_from_be(bytes.subrange(5, 7)),
                record_type: RecordType::of_tag(bytes[0])->Some_0,
                payload: bytes.subrange(7, 7 + u16_from_be(bytes.subrange(5, 7))),
            },
        )
    }
}

impl Clone for Record {
    fn clone(&self) -> (r: Record)
        ensures
            r@ == self@,
    {
        let payload = self.payload.clone();
        assert(payload@ =~= self.payload@);
        Record { crc: self.crc, size: self.size, record_type: self.record_type, payload }
    }
}

impl Record {
    /// The record of the given type that carries `payload`, with the
    /// payload's checksum and its length cut to 16 bits. The header tells
    /// the truth while the payload is shorter than 64 KiB.
    pub fn new(record_type: RecordType, payload: Vec<u8>) -> (r: Record)
        ensures
            r@ == RecordView::of(record_type, payload@),
            payload@.len() <= u16::MAX ==> r@.wf(),
    {
        let crc = checksum_ieee(payload.as_slice());
        Record::with_checksum(record_type, payload, crc)
    }

    /// The record of the given type that carries `payload`, with `crc` for
    /// its checksum and the payload's length cut to 16 bits.
    pub fn with_checksum(record_type: RecordType, payload: Vec<u8>, crc: u32) -> (r: Record)
        ensures
            r@ == (RecordView {
                crc,
                size: (payload@.len() % 0x1_0000) as u16,
                record_type,
                payload: payload@,
            }),
    {
        let len = payload.len();
        let size: u16 = #[verifier::truncate]
        (len as u16);
        assert(size == (len as nat % 0x1_0000) as u16) by (bit_vector)
            requires
                size == len as u16,
        ;
        Record { crc, size, record_type, payload }
    }

    /// Reads one record from the front of `reader` and advances `reader`
    /// past it. On failure `reader` stays where it was.
    pub fn read(reader: &mut &[u8]) -> (r: Result<Record, RecordError>)
        ensures
            match decode_record(old(reader)@) {
                Ok(record) => r matches Ok(x) && x@ == record && record.wf() && final(reader)@
                    == old(reader)@.skip(record.total_len() as int),
                Err(e) => r matches Err(e2) && e2 == e && final(reader)@ == old(reader)@,
            },
            old(reader)@.len() >= HEADER_SIZE && !(1 <= old(reader)@[0] <= 5) ==> r matches Err(
                RecordError::InvalidRecordType,
            ),
    {
        let saved: &[u8] = *reader;
        let record = Record::read_unverified(reader)?;
        let payload_crc = checksum_ieee(record.payload.as_slice());
        let r = record.verified(payload_crc);
        if r.is_err() {
            *reader = saved;
        }
        r
    }

    /// Reads one record from the front of `reader`, without a look at its
    /// checksum, and advances `reader` past it. On failure `reader` stays
    /// where it was.
    pub fn read_unverified(reader: &mut &[u8]) -> (r: Result<Record, RecordError>)
        ensures
            match decode_unverified(old(reader)@) {
                Ok(record) => r matches Ok(x) && x@ == record && record.size
                    == record.payload.len() && final(reader)@ == old(reader)@.skip(
                    record.total_len() as int,
                ),
                Err(e) => r matches Err(e2) && e2 == e && final(reader)@ == old(reader)@,
            },
    {
        let saved: &[u8] = *reader;
        let ghost start = reader@;
        let header = match crate::wal::serializable::take_bytes(reader, HEADER_SIZE) {
            Ok(header) => header,
            Err(_) => {
                return Err(RecordError::ShortRead);
            },
        };
        let record_type = match RecordType::from_u8(header[0]) {
            Some(record_type) => record_type,
            None => {
                *reader = saved;
                return Err(RecordError::InvalidRecordType);
            },
        };
        let crc = read_u32_be(slice_subrange(header, 1, 5));
        let size = read_u16_be(slice_subrange(header, 5, 7));
        assert(header@.subrange(1, 5) =~= start.subrange(1, 5));
        assert(header@.subrange(5, 7) =~= start.subrange(5, 7));
        let body = match crate::wal::serializable::take_bytes(reader, size as usize) {
            Ok(body) => body,
            Err(_) => {
                *reader = saved;
                return Err(RecordError::ShortRead);
            },
        };
        assert(body@ =~= start.subrange(7, 7 + size));
        assert(reader@ =~= start.skip(7 + size));
        let payload = slice_to_vec(body);
        Ok(Record { crc, size, record_type, payload })
    }

    /// The record, if `sum`, the checksum of its payload, is the checksum
    /// in its header; else the finding that it is corrupt.
    pub fn verified(self, sum: u32) -> (r: Result<Record, RecordError>)
        ensures
            sum == self.crc ==> r == Ok::<Record, RecordError>(self),
            sum != self.crc ==> r == Err::<Record, RecordError>(RecordError::CorruptRecord),
    {
        if sum != self.crc {
            return Err(RecordError::CorruptRecord);
        }
        Ok(self)
    }

    /// Appends the record to `writer`: the header as it stands, then the
    /// whole payload.
    pub fn write(&self, writer: &mut Vec<u8>)
        ensures
            final(writer)@ == old(writer)@ + self@.encode(),
    {
        writer.push(self.record_type.to_u8());
        let mut crc = write_u32_be(self.crc);
        writer.append(&mut crc);
        let mut size = write_u16_be(self.size);
        writer.append(&mut size);
        put_bytes(writer, self.payload.as_slice());
        assert(writer@ =~= old(writer)@ + self@.encode());
    }
}

/// Reading back what was written: a record whose header tells the truth
/// is read from its bytes as it was, whatever follows them.
pub proof fn lemma_read_write(record: RecordView, rest: Seq<u8>)
    requires
        record.wf(),
    ensures
        decode_record(record.encode() + rest) == Ok::<RecordView, RecordError>(record),
        record.encode().len() == record.total_len(),
{
    let bytes = record.encode() + rest;
    lemma_u32_be_round_trip(record.crc, Seq::empty());
    lemma_u16_be_round_trip(record.size, Seq::empty());
    assert(bytes.subrange(1, 5) =~= u32_be_bytes(record.crc) + Seq::<u8>::empty());
    assert(bytes.subrange(5, 7) =~= u16_be_bytes(record.size) + Seq::<u8>::empty());
    assert(bytes.subrange(7, 7 + record.size) =~= record.payload);
    assert(bytes[0] == record.record_type.tag());
}

/// A header byte that is no record type is rejected: where seven bytes
/// are there and the first is 0 or above 5, reading fails with
/// `InvalidRecordType`.
pub proof fn lemma_invalid_header(bytes: Seq<u8>)
    requires
        bytes.len() >= HEADER_SIZE,
        bytes[0] == 0 || bytes[0] > 5,
    ensures
        decode_record(bytes) == Err::<RecordView, RecordError>(RecordError::InvalidRecordType),
{
}

/// A changed payload with another checksum is found out: where the
/// payload of a truthful record is replaced in its bytes by one of the
/// same length whose checksum differs, reading fails with `CorruptRecord`.
pub proof fn lemma_changed_payload(record: RecordView, payload: Seq<u8>, rest: Seq<u8>)
    requires
        record.wf(),
        payload.len() == record.payload.len(),
        crc32_ieee(payload) != crc32_ieee(record.payload),
    ensures
        decode_record(record.header() + payload + rest) == Err::<RecordView, RecordError>(
            RecordError::CorruptRecord,
        ),
{
    let bytes = record.header() + payload + rest;
    lemma_u32_be_round_trip(record.crc, Seq::empty());
    lemma_u16_be_round_trip(record.size, Seq::empty());
    assert(bytes.subrange(1, 5) =~= u32_be_bytes(record.crc) + Seq::<u8>::empty());
    assert(bytes.subrange(5, 7) =~= u16_be_bytes(record.size) + Seq::<u8>::empty());
    assert(bytes.subrange(7, 7 + record.size) =~= payload);
    assert(bytes[0] == record.record_type.tag());
}

} // verus!
