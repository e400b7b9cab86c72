use matchx::codec::JournalError;
use matchx::journal::{JournalEntry, JournalReader, RecoveryManager, RecoveryReport};
use matchx::record::{decode_record, encode_record};
use matchx::segments::{is_segment_file, segment_name};
use matchx::streaming::{body_step, header_step, HeaderStep, StreamingReader};
use matchx::types::{Command, OrderId, OrderType, Side, TimeInForce};
use matchx::writer::{JournalWriter, Placement};

/// A file that a writer appends to.
fn write_all(writer: &mut JournalWriter, file: &mut Vec<u8>, sequence: u64, cmd: &Command) {
    let append = writer.append(sequence, cmd);
    assert_eq!(append.placement, Placement::Here);
    file.extend_from_slice(&append.record);
    writer.written(append.record.len() as u64);
}

/// Segments by name, as a directory lists them.
fn write_segmented(max_bytes: u64, count: u64, command: fn(u64) -> Command) -> Vec<(Vec<u8>, Vec<u8>)> {
    let (first, name) = JournalWriter::segment_to_open(&Vec::new());
    let mut segments = vec![(name, Vec::new())];
    let mut writer = JournalWriter::open_segmented(first, 0, max_bytes);
    for seq in 1..=count {
        let append = writer.append(seq, &command(seq));
        if let Placement::NewSegment(index) = append.placement {
            segments.push((segment_name(index), Vec::new()));
            writer.segment_opened();
        }
        segments.last_mut().unwrap().1.extend_from_slice(&append.record);
        writer.written(append.record.len() as u64);
    }
    segments
}

fn contents(segments: Vec<(Vec<u8>, Vec<u8>)>) -> Vec<Vec<u8>> {
    segments.into_iter().map(|(_, data)| data).collect()
}

fn cmd(_seq: u64) -> Command {
    Command::CancelOrder { id: OrderId(42) }
}

fn cancel_cmd(id: u64) -> Command {
    Command::CancelOrder { id: OrderId(id) }
}

fn write_n_records(count: u64) -> Vec<u8> {
    let mut file = Vec::new();
    let mut writer = JournalWriter::open();
    for seq in 1..=count {
        write_all(
            &mut writer,
            &mut file,
            seq,
            &Command::CancelOrder {
                id: OrderId(1000 + seq),
            },
        );
    }
    file
}

#[test]
fn write_and_read_back_commands() {
    let cmd1 = Command::NewOrder {
        id: OrderId(1),
        instrument_id: 1,
        side: Side::Bid,
        price: 100,
        qty: 10,
        order_type: OrderType::Limit,
        time_in_force: TimeInForce::GTC,
        visible_qty: None,
        stop_price: None,
        stp_group: None,
    };
    let cmd2 = Command::CancelOrder { id: OrderId(1) };

    let mut file = Vec::new();
    let mut writer = JournalWriter::open();
    write_all(&mut writer, &mut file, 1, &cmd1);
    write_all(&mut writer, &mut file, 2, &cmd2);

    let mut reader = JournalReader::open(vec![file]);
    let entries: Vec<_> = reader.read_all().unwrap();
    assert_eq!(entries.len(), 2);
    assert_eq!(entries[0].sequence, 1);
    assert_eq!(entries[1].sequence, 2);
    assert_eq!(entries[0].command, cmd1);
    assert_eq!(entries[1].command, cmd2);
}

#[test]
fn crc_detects_corruption() {
    let cmd = Command::CancelOrder { id: OrderId(42) };

    let mut data = Vec::new();
    let mut writer = JournalWriter::open();
    write_all(&mut writer, &mut data, 1, &cmd);

    // Corrupt a byte in the sequence field (byte 10 = offset 6 of the u64 sequence)
    data[10] ^= 0xFF;

    let mut reader = JournalReader::open(vec![data]);
    assert!(reader.read_all().is_err());
    assert_eq!(reader.read_all(), Err(JournalError::CrcMismatch));
}

#[test]
fn rotates_segments_when_max_bytes_exceeded() {
    let segments = write_segmented(256, 200, cmd);
    let names: Vec<_> = segments
        .iter()
        .filter(|(name, _)| is_segment_file(name))
        .collect();
    assert!(
        names.len() > 1,
        "expected >1 segment, got {}",
        names.len()
    );
    // Ten records of 25 bytes fit in 256 bytes.
    assert_eq!(names.len(), 20);
    assert!(segments.iter().all(|(_, data)| data.len() == 250));
}

#[test]
fn reader_reads_across_rotated_segments_in_sequence_order() {
    let mut segments = write_segmented(128, 32, cancel_cmd);
    segments.reverse();
    segments.sort();

    let mut reader = JournalReader::open(contents(segments));
    let entries = reader.read_all().unwrap();
    assert_eq!(entries.len(), 32);
    for (i, entry) in entries.iter().enumerate() {
        assert_eq!(entry.sequence, i as u64 + 1);
    }
}

#[test]
fn streaming_reader_matches_batch_reader() {
    let segments = contents(write_segmented(128, 20, cancel_cmd));

    // Batch reader
    let mut batch = JournalReader::open(segments.clone());
    let batch_entries = batch.read_all().unwrap();

    // Streaming reader
    let mut streaming = StreamingReader::open(segments);
    let mut streaming_entries = Vec::new();
    while let Some(entry) = streaming.next_entry().unwrap() {
        streaming_entries.push(entry);
    }

    assert_eq!(batch_entries.len(), streaming_entries.len());
    for (b, s) in batch_entries.iter().zip(streaming_entries.iter()) {
        assert_eq!(b.sequence, s.sequence);
    }
    assert_eq!(batch_entries, streaming_entries);
}

#[test]
fn recovery_truncates_to_last_valid_record_boundary() {
    let mut file = write_n_records(10);
    file.truncate(file.len() - 3);

    let report = RecoveryManager::recover_path(&mut file);
    assert_eq!(report.last_valid_sequence, 9);
    assert!(report.truncated_bytes > 0);
    assert_eq!(report.truncated_bytes, 22);

    let mut reader = JournalReader::open(vec![file]);
    let entries = reader.read_all().unwrap();
    assert_eq!(entries.len(), 9);
}

#[test]
fn recovery_leaves_a_whole_segment_as_it_is() {
    let mut file = write_n_records(3);
    let before = file.clone();
    let report = RecoveryManager::recover_path(&mut file);
    assert_eq!(
        report,
        RecoveryReport {
            last_valid_sequence: 3,
            truncated_bytes: 0
        }
    );
    assert_eq!(file, before);
}

#[test]
fn recovery_of_garbage_leaves_nothing() {
    let mut file = vec![1, 2, 3];
    let report = RecoveryManager::recover_path(&mut file);
    assert_eq!(
        report,
        RecoveryReport {
            last_valid_sequence: 0,
            truncated_bytes: 3
        }
    );
    assert!(file.is_empty());
}

#[test]
fn recovery_stops_at_a_bad_checksum() {
    let mut file = write_n_records(4);
    // A byte of the third record's payload.
    file[2 * 25 + 15] ^= 1;
    let report = RecoveryManager::recover_path(&mut file);
    assert_eq!(report.last_valid_sequence, 2);
    assert_eq!(report.truncated_bytes, 50);
    assert_eq!(file, write_n_records(2));
}

#[test]
fn recovery_of_segments_reports_the_last_sequence_and_all_cut_bytes() {
    let mut segments = contents(write_segmented(60, 5, cancel_cmd));
    assert_eq!(segments.len(), 3);
    segments[1].truncate(30);
    segments[2].truncate(10);
    let report = RecoveryManager::recover_dir(&mut segments);
    assert_eq!(report.last_valid_sequence, 3);
    assert_eq!(report.truncated_bytes, 15);
    assert_eq!(segments[0].len(), 50);
    assert_eq!(segments[1].len(), 25);
    assert!(segments[2].is_empty());
    let entries = JournalReader::open(segments).read_all().unwrap();
    let sequences: Vec<u64> = entries.iter().map(|e| e.sequence).collect();
    assert_eq!(sequences, vec![1, 2, 3]);
}

#[test]
fn a_cut_record_is_invalid_wherever_it_is_cut() {
    let record = encode_record(7, &cancel_cmd(9));
    for k in 0..record.len() {
        assert_eq!(decode_record(&record[..k]), Err(JournalError::InvalidData));
    }
    assert_eq!(decode_record(&record), Ok((7, cancel_cmd(9), 25)));
}

#[test]
fn a_record_is_read_back_whatever_follows_it() {
    let mut data = encode_record(u64::MAX, &cancel_cmd(u64::MAX));
    data.extend_from_slice(&[0xFF, 0, 1]);
    assert_eq!(
        decode_record(&data),
        Ok((u64::MAX, cancel_cmd(u64::MAX), 25))
    );
}

#[test]
fn reading_stops_at_the_first_bad_segment() {
    let good = write_n_records(2);
    let mut reader = JournalReader::open(vec![good, vec![0; 20]]);
    assert_eq!(reader.read_all(), Err(JournalError::CrcMismatch));
    let mut empty = JournalReader::open(Vec::new());
    assert_eq!(empty.read_all(), Ok(Vec::new()));
}

#[test]
fn streaming_takes_a_short_end_as_the_end_of_a_segment() {
    let mut first = write_n_records(1);
    first.extend_from_slice(&[1, 2, 3]);
    let second = write_n_records(2);
    let mut reader = StreamingReader::open(vec![first, second]);
    let mut sequences = Vec::new();
    while let Some(entry) = reader.next_entry().unwrap() {
        sequences.push(entry.sequence);
    }
    assert_eq!(sequences, vec![1, 1, 2]);
}

#[test]
fn streaming_reports_a_bad_record_and_goes_on() {
    let mut data = write_n_records(3);
    data[25 + 13] ^= 0x10;
    let mut cut = write_n_records(1);
    cut.truncate(20);
    let mut reader = StreamingReader::open(vec![data, cut, write_n_records(1)]);
    assert_eq!(reader.next_entry().unwrap().unwrap().sequence, 1);
    assert_eq!(reader.next_entry(), Err(JournalError::CrcMismatch));
    assert_eq!(reader.next_entry().unwrap().unwrap().sequence, 3);
    assert_eq!(reader.next_entry(), Err(JournalError::InvalidData));
    assert_eq!(
        reader.next_entry(),
        Ok(Some(JournalEntry {
            sequence: 1,
            command: cancel_cmd(1001)
        }))
    );
    assert_eq!(reader.next_entry(), Ok(None));
    assert_eq!(reader.next_entry(), Ok(None));
}

#[test]
fn a_segment_is_over_its_limit_only_where_one_record_is() {
    let segments = write_segmented(1, 3, cancel_cmd);
    assert_eq!(segments.len(), 3);
    assert!(segments.iter().all(|(_, data)| data.len() == 25));
    // A limit of zero counts as one.
    assert_eq!(write_segmented(0, 3, cancel_cmd), segments);
}

/// Where a record of `len` bytes goes, which is then written.
fn place(writer: &mut JournalWriter, len: u64) -> Placement {
    assert!(writer.has_room(len));
    let placement = writer.append_raw(len);
    if placement != Placement::Here {
        writer.segment_opened();
    }
    writer.written(len);
    placement
}

#[test]
fn a_segmented_writer_goes_on_with_the_last_segment() {
    let mut writer = JournalWriter::open_segmented(7, 60, 100);
    assert_eq!(place(&mut writer, 40), Placement::Here);
    assert_eq!(place(&mut writer, 1), Placement::NewSegment(8));
    assert_eq!(place(&mut writer, 99), Placement::Here);
    assert_eq!(place(&mut writer, 200), Placement::NewSegment(9));
    assert_eq!(place(&mut writer, 1), Placement::NewSegment(10));
}

#[test]
fn a_segment_that_could_not_be_opened_loses_its_index() {
    let mut writer = JournalWriter::open_segmented(7, 100, 100);
    assert_eq!(writer.append_raw(1), Placement::NewSegment(8));
    assert_eq!(writer.append_raw(1), Placement::NewSegment(9));
    writer.segment_opened();
    assert_eq!(writer.append_raw(1), Placement::Here);
}

#[test]
fn the_segment_to_open_is_the_last_one_there_is() {
    let names = |list: &[&str]| -> Vec<Vec<u8>> { list.iter().map(|n| n.as_bytes().to_vec()).collect() };
    assert_eq!(
        JournalWriter::segment_to_open(&names(&[])),
        (1, b"journal-00000001.wal".to_vec())
    );
    assert_eq!(
        JournalWriter::segment_to_open(&names(&["notes.txt", "journal-old.wal"])),
        (1, b"journal-00000001.wal".to_vec())
    );
    assert_eq!(
        JournalWriter::segment_to_open(&names(&[
            "journal-00000003.wal",
            "journal-00000012.wal",
            "journal-zz.wal",
            "journal-00000007.wal",
        ])),
        (12, b"journal-00000012.wal".to_vec())
    );
}

#[test]
fn a_writer_has_room_while_index_and_size_fit() {
    let single = JournalWriter::open();
    assert!(single.has_room(u64::MAX));
    let full = JournalWriter::open_segmented(u64::MAX, 10, 20);
    assert!(full.has_room(10));
    assert!(!full.has_room(11));
    let large = JournalWriter::open_segmented(1, u64::MAX - 1, u64::MAX);
    assert!(large.has_room(1));
    assert!(!large.has_room(2));
}

#[test]
fn a_record_is_read_in_two_steps() {
    let record = encode_record(7, &cmd(7));
    assert_eq!(header_step(&record[..3]), HeaderStep::NextSegment);
    assert_eq!(header_step(&[]), HeaderStep::NextSegment);
    let rest = record.len() - 4;
    assert_eq!(header_step(&record[..4]), HeaderStep::ReadBody(rest as u64));
    assert_eq!(
        body_step(&record[..4], &record[4..]),
        Ok(JournalEntry { sequence: 7, command: cmd(7) })
    );
    assert_eq!(
        body_step(&record[..4], &record[4..record.len() - 1]),
        Err(JournalError::InvalidData)
    );
    let mut bad = record.clone();
    bad[5] ^= 1;
    assert_eq!(body_step(&bad[..4], &bad[4..]), Err(JournalError::CrcMismatch));
}

#[test]
fn a_journal_of_one_torn_record_recovers_to_nothing() {
    let record = encode_record(1, &cmd(1));
    for cut in 0..record.len() {
        let mut file = record[..cut].to_vec();
        let report = RecoveryManager::recover_path(&mut file);
        assert!(file.is_empty());
        assert_eq!(
            report,
            RecoveryReport { last_valid_sequence: 0, truncated_bytes: cut as u64 }
        );
    }
}
