use disk_utils::wal::iterator::{ReadDirection, WalIterator};
use disk_utils::wal::record::{Record, RecordType, BLOCK_SIZE, HEADER_SIZE};
use disk_utils::wal::{append_record, append_to_file};

#[test]
fn test_append_test_no_padding_on_same_block() {
    let record_size = (BLOCK_SIZE / 4) as u16;
    let payload_size = record_size - HEADER_SIZE as u16;
    let mut records = Vec::with_capacity(8);
    for i in 0..8 {
        let record_type = match i {
            0 => RecordType::First,
            7 => RecordType::Last,
            _ => RecordType::Middle,
        };

        records.push(Record::new(record_type, vec![123; payload_size as usize]));
    }

    let mut direct_write_file = Vec::new();
    let mut writer_file = Vec::new();
    for record in records.iter() {
        record.write(&mut direct_write_file);
    }

    for record in records.iter() {
        append_to_file(&mut writer_file, record);
    }

    let mut num_comparisons = 0;
    let file_len = direct_write_file.len();
    for (b1, b2) in direct_write_file.iter().zip(writer_file.iter()) {
        assert_eq!(b1, b2);
        num_comparisons += 1;
    }
    assert_eq!(num_comparisons, file_len);
}

#[test]
fn test_append_test_padding_before_new_block() {
    let record_size = (BLOCK_SIZE / 3) as u16;
    let payload_size = record_size - HEADER_SIZE as u16;
    let mut records = Vec::with_capacity(8);
    for i in 0..8 {
        let record_type = match i {
            0 => RecordType::First,
            7 => RecordType::Last,
            _ => RecordType::Middle,
        };

        records.push(Record::new(record_type, vec![123; payload_size as usize]));
    }

    let mut direct_write_file = Vec::new();
    let mut writer_file = Vec::new();
    for record in records.iter() {
        record.write(&mut direct_write_file);
    }

    for record in records.iter() {
        append_to_file(&mut writer_file, record);
    }

    let direct_write_file_len = direct_write_file.len();
    let writer_file_len = writer_file.len();
    assert!(direct_write_file_len != writer_file_len);

    let mut count = 0;
    let mut iter = WalIterator::new(&writer_file, ReadDirection::Forward);
    while let Some(record) = iter.next() {
        assert_eq!(record, records[count]);
        count += 1;
    }
    assert_eq!(count, 8);
}

#[test]
fn test_append_test_single_bytes() {
    let num_records = BLOCK_SIZE * 2;
    let mut records = Vec::with_capacity(num_records as usize);
    for i in 0..num_records {
        let record_type = match i {
            0 => RecordType::First,
            pos if pos == num_records - 1 => RecordType::Last,
            _ => RecordType::Middle,
        };

        records.push(Record::new(record_type, vec![0]));
    }

    let mut file = Vec::new();
    for record in records.iter() {
        append_to_file(&mut file, record);
    }

    let mut count = 0;
    let mut iter = WalIterator::new(&file, ReadDirection::Forward);
    while let Some(record) = iter.next() {
        assert_eq!(record, records[count]);
        count += 1;
    }
    assert_eq!(count as i64, num_records);
}

#[test]
fn test_padding_counts_the_header() {
    // A payload that would fit in the rest of the block without its header
    // is padded before.
    let block = BLOCK_SIZE as usize;
    let mut file = vec![];
    let filler = Record::new(RecordType::Full, vec![1; block - 20 - HEADER_SIZE]);
    append_to_file(&mut file, &filler);
    assert_eq!(file.len(), block - 20);

    let record = Record::new(RecordType::Full, vec![2; 14]);
    append_to_file(&mut file, &record);
    assert_eq!(file.len(), block + 21);
    assert_eq!(file[block - 20..block], [0u8; 20]);
    assert_eq!(file[block], 2);

    // A record that just fits is not padded before.
    let mut file = vec![];
    append_to_file(&mut file, &filler);
    let record = Record::new(RecordType::Full, vec![2; 13]);
    append_to_file(&mut file, &record);
    assert_eq!(file.len(), block);
    assert_eq!(file[block - 20], 2);

    let mut iter = WalIterator::new(&file, ReadDirection::Forward);
    assert_eq!(iter.next(), Some(filler));
    assert_eq!(iter.next(), Some(record));
    assert_eq!(iter.next(), None);
}

#[test]
fn test_append_record_counts_from_the_bytes_in_use() {
    let record = Record::new(RecordType::Full, vec![9; 3]);
    let mut out = vec![42];
    assert_eq!(append_record(&mut out, 0, &record), 10);
    assert_eq!(out.len(), 11);
    assert_eq!(out[0], 42);
    assert_eq!(out[1], 2);

    let mut out = Vec::new();
    assert_eq!(append_record(&mut out, 32758, &record), 0);
    assert_eq!(out.len(), 10);

    let mut out = Vec::new();
    assert_eq!(append_record(&mut out, 32759, &record), 10);
    assert_eq!(out.len(), 9 + 10);
    assert_eq!(out[..9], [0u8; 9]);
    assert_eq!(out[9], 2);

    let mut out = Vec::new();
    assert_eq!(append_record(&mut out, 32767, &record), 10);
    assert_eq!(out.len(), 1 + 10);
}

#[test]
fn test_appended_records_are_read_back() {
    // Records of many sizes, over several blocks.
    let mut records = Vec::new();
    let mut size = 1usize;
    let mut i = 0u8;
    while records.len() < 300 {
        records.push(Record::new(RecordType::Full, vec![i; size % 3000]));
        size = (size * 31 + 17) % 7919;
        i = i.wrapping_add(1);
    }
    let mut file = Vec::new();
    for record in records.iter() {
        append_to_file(&mut file, record);
    }
    assert!(file.len() > 3 * BLOCK_SIZE as usize);

    let mut forward = Vec::new();
    let mut iter = WalIterator::new(&file, ReadDirection::Forward);
    while let Some(record) = iter.next() {
        forward.push(record);
    }
    assert_eq!(forward, records);

    let mut backward = Vec::new();
    let mut iter = WalIterator::new(&file, ReadDirection::Backward);
    while let Some(record) = iter.next_back() {
        backward.push(record);
    }
    backward.reverse();
    assert_eq!(backward, records);
}
