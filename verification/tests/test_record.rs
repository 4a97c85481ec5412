use disk_utils::wal::record::{Record, RecordError, RecordType, BLOCK_SIZE, HEADER_SIZE};

#[test]
fn test_file_read_write() {
    let mut file: Vec<u8> = Vec::new();
    let record = Record::new(RecordType::Full, vec![123; 12345]);
    record.write(&mut file);

    let test_record = Record::read(&mut &file[..]).unwrap();
    assert_eq!(record, test_record);
}

#[test]
fn test_single_byte_read_write() {
    let record = Record::new(RecordType::Full, vec![0]);
    let mut bytes = Vec::new();
    record.write(&mut bytes);

    let test_record = Record::read(&mut &bytes[..]).unwrap();
    assert_eq!(record, test_record);
}

#[test]
fn test_corrupted_record() {
    let record = Record::new(RecordType::Full, vec![123; 12345]);
    let mut bytes = Vec::new();
    record.write(&mut bytes);

    // Modify a byte in the buffer.
    bytes[123] = 0;

    // Check that the corruption is detected.
    assert!(Record::read(&mut &bytes[..]).is_err());
}

#[test]
fn test_read_write_invalid_record() {
    let mut bytes = vec![0; 100];
    if let Ok(_) = Record::read(&mut &bytes[..]) {
        panic!("Reading invalid record padded by zeros should return error");
    }

    bytes = vec![0; 1];
    if let Ok(_) = Record::read(&mut &bytes[..]) {
        panic!("Reading invalid record with a single zero should return error");
    }

    bytes = vec![1, 2, 3, 4, 5, 6];
    if let Ok(_) = Record::read(&mut &bytes[..]) {
        panic!("Reading invalid record with a smaller header size should return error");
    }

    bytes = vec![1, 2, 3, 4, 5, 6, 7, 0];
    if let Ok(_) = Record::read(&mut &bytes[..]) {
        panic!("Reading invalid record with a smaller data size should return error");
    }
}

#[test]
fn test_enum_primative() {
    assert_eq!(None, RecordType::from_u8(0 as u8));
    assert_eq!(Some(RecordType::Zero), RecordType::from_u8(1 as u8));
    assert_eq!(Some(RecordType::Full), RecordType::from_u8(2 as u8));
    assert_eq!(Some(RecordType::First), RecordType::from_u8(3 as u8));
    assert_eq!(Some(RecordType::Middle), RecordType::from_u8(4 as u8));
    assert_eq!(Some(RecordType::Last), RecordType::from_u8(5 as u8));
    assert_eq!(None, RecordType::from_u8(6 as u8));
}

#[test]
fn test_record_type_tags() {
    assert_eq!(RecordType::Zero.to_u8(), 1);
    assert_eq!(RecordType::Full.to_u8(), 2);
    assert_eq!(RecordType::First.to_u8(), 3);
    assert_eq!(RecordType::Middle.to_u8(), 4);
    assert_eq!(RecordType::Last.to_u8(), 5);
    for n in 0..=255u8 {
        match RecordType::from_u8(n) {
            Some(record_type) => assert_eq!(record_type.to_u8(), n),
            None => assert!(n == 0 || n > 5),
        }
    }
}

#[test]
fn test_constants() {
    assert_eq!(BLOCK_SIZE, 32768);
    assert_eq!(HEADER_SIZE, 7);
}

#[test]
fn test_record_layout() {
    // The CRC-32 (IEEE) checksum of the bytes of "123456789" is 0xCBF43926.
    let record = Record::new(RecordType::Full, b"123456789".to_vec());
    assert_eq!(record.crc, 0xCBF4_3926);
    assert_eq!(record.size, 9);
    assert_eq!(record.record_type, RecordType::Full);

    let mut bytes = Vec::new();
    record.write(&mut bytes);
    let mut expected = vec![2, 0xCB, 0xF4, 0x39, 0x26, 0, 9];
    expected.extend_from_slice(b"123456789");
    assert_eq!(bytes, expected);
}

#[test]
fn test_record_of_no_bytes() {
    let record = Record::new(RecordType::Zero, vec![]);
    assert_eq!(record.crc, 0);
    assert_eq!(record.size, 0);
    let mut bytes = Vec::new();
    record.write(&mut bytes);
    assert_eq!(bytes, vec![1, 0, 0, 0, 0, 0, 0]);
    assert_eq!(Record::read(&mut &bytes[..]).unwrap(), record);
}

#[test]
fn test_record_size_is_cut_to_16_bits() {
    let record = Record::new(RecordType::Full, vec![7; 65536 + 5]);
    assert_eq!(record.size, 5);
    assert_eq!(record.payload.len(), 65536 + 5);
}

#[test]
fn test_read_advances_reader() {
    let first = Record::new(RecordType::First, vec![1, 2, 3]);
    let last = Record::new(RecordType::Last, vec![4]);
    let mut bytes = Vec::new();
    first.write(&mut bytes);
    last.write(&mut bytes);
    bytes.push(0);

    let mut reader = &bytes[..];
    assert_eq!(Record::read(&mut reader).unwrap(), first);
    assert_eq!(reader.len(), 7 + 1 + 1);
    assert_eq!(Record::read(&mut reader).unwrap(), last);
    assert_eq!(reader, &[0u8][..]);
    assert_eq!(Record::read(&mut reader), Err(RecordError::ShortRead));
}

#[test]
fn test_header_byte_is_checked() {
    let record = Record::new(RecordType::Full, vec![9; 20]);
    let mut bytes = Vec::new();
    record.write(&mut bytes);
    for tag in [0u8, 6, 7, 100, 255] {
        bytes[0] = tag;
        assert_eq!(Record::read(&mut &bytes[..]), Err(RecordError::InvalidRecordType));
    }
    // A short header is a short read, whatever its first byte.
    assert_eq!(Record::read(&mut &[0u8, 0, 0][..]), Err(RecordError::ShortRead));
    assert_eq!(Record::read(&mut &[][..]), Err(RecordError::ShortRead));
}

#[test]
fn test_every_changed_payload_byte_is_found() {
    let payload: Vec<u8> = (0..200u16).map(|i| (i * 7 % 251) as u8).collect();
    let record = Record::new(RecordType::Full, payload);
    let mut bytes = Vec::new();
    record.write(&mut bytes);
    for i in HEADER_SIZE..bytes.len() {
        for bit in 0..8 {
            let mut changed = bytes.clone();
            changed[i] ^= 1 << bit;
            assert_eq!(Record::read(&mut &changed[..]), Err(RecordError::CorruptRecord));
        }
    }
}

#[test]
fn test_changed_checksum_is_found() {
    let record = Record {
        crc: 123456789,
        size: 3,
        record_type: RecordType::Middle,
        payload: vec![1, 2, 3],
    };
    let mut bytes = Vec::new();
    record.write(&mut bytes);
    assert_eq!(bytes[..7], [4, 0x07, 0x5B, 0xCD, 0x15, 0, 3]);
    assert_eq!(Record::read(&mut &bytes[..]), Err(RecordError::CorruptRecord));
}

#[test]
fn test_short_payload() {
    let record = Record::new(RecordType::Full, vec![5; 10]);
    let mut bytes = Vec::new();
    record.write(&mut bytes);
    bytes.pop();
    assert_eq!(Record::read(&mut &bytes[..]), Err(RecordError::ShortRead));
}

#[test]
fn test_clone_keeps_record() {
    let record = Record::new(RecordType::Last, vec![1, 2, 3, 4]);
    assert_eq!(record.clone(), record);
}

#[test]
fn test_record_with_checksum() {
    let record = Record::with_checksum(RecordType::Last, vec![1, 2, 3], 42);
    assert_eq!(
        record,
        Record { crc: 42, size: 3, record_type: RecordType::Last, payload: vec![1, 2, 3] }
    );
    assert_eq!(Record::with_checksum(RecordType::Zero, vec![0; 65536], 0).size, 0);
    assert_eq!(Record::with_checksum(RecordType::Zero, vec![0; 65535], 0).size, 65535);
}

#[test]
fn test_read_unverified_and_verified() {
    let bytes = [3u8, 0, 0, 0, 42, 0, 2, 8, 9, 10];
    let mut reader = &bytes[..];
    let record = Record::read_unverified(&mut reader).unwrap();
    assert_eq!(
        record,
        Record { crc: 42, size: 2, record_type: RecordType::First, payload: vec![8, 9] }
    );
    assert_eq!(reader, &[10u8][..]);
    assert_eq!(record.clone().verified(42), Ok(record.clone()));
    assert_eq!(record.clone().verified(43), Err(RecordError::CorruptRecord));
    assert_eq!(Record::read(&mut &bytes[..]), Err(RecordError::CorruptRecord));

    assert_eq!(Record::read_unverified(&mut &bytes[..8]), Err(RecordError::ShortRead));
    assert_eq!(Record::read_unverified(&mut &bytes[..6]), Err(RecordError::ShortRead));
    assert_eq!(
        Record::read_unverified(&mut &[0u8, 0, 0, 0, 42, 0, 2, 8, 9][..]),
        Err(RecordError::InvalidRecordType)
    );
    assert_eq!(
        Record::read_unverified(&mut &[6u8, 0, 0, 0, 42, 0, 0][..]),
        Err(RecordError::InvalidRecordType)
    );
}

#[test]
fn test_failed_record_reads_leave_the_reader() {
    let record = Record::new(RecordType::Full, vec![5; 10]);
    let mut bytes = Vec::new();
    record.write(&mut bytes);
    bytes[10] ^= 1;
    let mut reader = &bytes[..];
    assert_eq!(Record::read(&mut reader), Err(RecordError::CorruptRecord));
    assert_eq!(reader, &bytes[..]);
    assert_eq!(Record::read_unverified(&mut reader).unwrap().payload.len(), 10);
    assert!(reader.is_empty());

    let mut reader = &bytes[..12];
    assert_eq!(Record::read(&mut reader), Err(RecordError::ShortRead));
    assert_eq!(reader, &bytes[..12]);
    bytes[0] = 9;
    let mut reader = &bytes[..];
    assert_eq!(Record::read(&mut reader), Err(RecordError::InvalidRecordType));
    assert_eq!(reader, &bytes[..]);
}
