use std::io::Write;

use fransson::archive::{
    fingerprint, format_version, read_record, summarize, validate_partitions, ArchiveEvent,
    ArchiveHeader, ArchiveReader, ArchiveRecord, ArchiveWriter, ContentReader,
};
use fransson::wire::{
    read_bytes, read_exact, read_i32, read_optional_bytes, read_optional_i64, read_u16, read_u32,
    read_u64, read_u8, u64_to_usize, usize_to_u32, write_bytes, write_i32, write_optional_bytes,
    write_optional_i64, write_u16, write_u32, write_u64, write_u8, ArchiveError, ArchiveFault,
    SliceSource,
};

const MAGIC: &[u8] = b"FRANSSON";
const VERSION: u16 = 2;

fn records() -> Vec<Vec<ArchiveRecord>> {
    vec![
        vec![ArchiveRecord {
            timestamp: Some(42),
            key: Some(Vec::new()),
            payload: None,
            headers: vec![
                ArchiveHeader {
                    key: "x".to_owned(),
                    value: None,
                },
                ArchiveHeader {
                    key: "x".to_owned(),
                    value: Some(vec![0, 1, 2]),
                },
            ],
        }],
        Vec::new(),
    ]
}

fn write_fixture() -> Vec<u8> {
    let input = records();
    let mut writer = ArchiveWriter::create(&[0, 1]).unwrap();
    for (partition, records) in input.iter().enumerate() {
        writer.begin_partition(partition as i32).unwrap();
        for record in records {
            writer.write_record(record).unwrap();
        }
        writer.end_partition().unwrap();
    }
    writer.finish().unwrap()
}

fn fault<T>(result: Result<T, ArchiveError>) -> ArchiveFault {
    match result {
        Ok(_) => panic!("unexpected success"),
        Err(ArchiveError::Fault(fault)) => fault,
        Err(ArchiveError::Io(error)) => panic!("unexpected I/O error {}", error),
    }
}

fn archive_with(content: &[u8]) -> Vec<u8> {
    let mut archive = MAGIC.to_vec();
    archive.extend_from_slice(&VERSION.to_le_bytes());
    archive.extend_from_slice(&zstd::stream::encode_all(content, 3).unwrap());
    archive
}

fn event_faults(content: &[u8]) -> ArchiveFault {
    let archive = archive_with(content);
    let mut reader = ArchiveReader::open(&archive).unwrap();
    loop {
        match reader.next_event() {
            Ok(Some(_)) => {}
            Ok(None) => panic!("unexpected end"),
            Err(error) => return fault::<()>(Err(error)),
        }
    }
}

#[test]
fn encoding_is_deterministic_and_round_trips() {
    let first = write_fixture();
    let second = write_fixture();
    assert_eq!(first, second);

    let mut reader = ArchiveReader::open(&first).unwrap();
    assert_eq!(reader.partitions(), &[0, 1]);
    let mut decoded = vec![Vec::new(), Vec::new()];
    let mut partition = None;
    while let Some(event) = reader.next_event().unwrap() {
        match event {
            ArchiveEvent::PartitionStart(id) => partition = Some(id),
            ArchiveEvent::Record(record) => decoded[partition.unwrap() as usize].push(record),
            ArchiveEvent::PartitionEnd(id) => {
                assert_eq!(partition.take(), Some(id));
            }
        }
    }
    assert_eq!(decoded, records());
    assert_eq!(fingerprint(&first), fingerprint(&second));
    assert!(reader.next_event().unwrap().is_none());
}

#[test]
fn reader_accepts_only_the_current_format() {
    let mut bytes = write_fixture();
    bytes[MAGIC.len()..MAGIC.len() + 2].copy_from_slice(&(VERSION - 1).to_le_bytes());
    let error = match ArchiveReader::open(&bytes) {
        Ok(_) => panic!("unsupported archive unexpectedly opened"),
        Err(error) => error,
    };
    let message = fault::<()>(Err(error)).message("dump.zst");
    assert!(message.contains("unsupported fransson archive version"));
    assert_eq!(
        message,
        "unsupported fransson archive version 1; expected 2"
    );
}

#[test]
fn content_has_the_documented_layout() {
    let archive = write_fixture();
    assert_eq!(&archive[..8], MAGIC);
    assert_eq!(&archive[8..10], &[2, 0]);
    let content = zstd::stream::decode_all(&archive[10..]).unwrap();
    let mut expected: Vec<u8> = vec![2, 0, 0, 0, 0, 0, 0, 0, 1, 0, 0, 0];
    expected.push(1);
    expected.extend_from_slice(&[1, 42, 0, 0, 0, 0, 0, 0, 0]);
    expected.extend_from_slice(&[1, 0, 0, 0, 0, 0, 0, 0, 0]);
    expected.push(0);
    expected.extend_from_slice(&[2, 0, 0, 0]);
    expected.extend_from_slice(&[1, 0, 0, 0, 0, 0, 0, 0, b'x', 0]);
    expected.extend_from_slice(&[1, 0, 0, 0, 0, 0, 0, 0, b'x']);
    expected.extend_from_slice(&[1, 3, 0, 0, 0, 0, 0, 0, 0, 0, 1, 2]);
    expected.extend_from_slice(&[0, 0]);
    assert_eq!(content, expected);
}

#[test]
fn the_stream_carries_a_checksum() {
    let mut archive = write_fixture();
    let last = archive.len() - 1;
    archive[last] ^= 0xff;
    let mut reader = match ArchiveReader::open(&archive) {
        Ok(reader) => reader,
        Err(ArchiveError::Io(_)) => return,
        Err(ArchiveError::Fault(fault)) => panic!("unexpected fault {:?}", fault),
    };
    loop {
        match reader.next_event() {
            Ok(Some(_)) => {}
            Ok(None) => panic!("a damaged archive was read to its end"),
            Err(ArchiveError::Io(_)) => return,
            Err(ArchiveError::Fault(fault)) => panic!("unexpected fault {:?}", fault),
        }
    }
}

fn reads_to_the_end(archive: &[u8]) -> bool {
    let mut reader = match ArchiveReader::open(archive) {
        Ok(reader) => reader,
        Err(_) => return false,
    };
    loop {
        match reader.next_event() {
            Ok(Some(_)) => {}
            Ok(None) => return true,
            Err(_) => return false,
        }
    }
}

#[test]
fn damaged_archives_never_read_to_a_clean_end() {
    let archive = write_fixture();
    assert!(reads_to_the_end(&archive));
    for length in 0..archive.len() {
        assert!(!reads_to_the_end(&archive[..length]));
    }
    let mut damaged = archive.clone();
    let last = damaged.len() - 1;
    damaged[last] ^= 1;
    assert!(!reads_to_the_end(&damaged));
    let mut lengthened = archive;
    lengthened.push(0);
    assert!(!reads_to_the_end(&lengthened));
}

#[test]
fn empty_archives_round_trip() {
    let archive = ArchiveWriter::create(&[]).unwrap().finish().unwrap();
    let mut reader = ArchiveReader::open(&archive).unwrap();
    assert!(reader.partitions().is_empty());
    assert!(reader.next_event().unwrap().is_none());
    assert_eq!(
        zstd::stream::decode_all(&archive[10..]).unwrap(),
        vec![0, 0, 0, 0]
    );
}

#[test]
fn writer_keeps_partitions_in_order() {
    assert_eq!(
        fault(ArchiveWriter::create(&[1])),
        ArchiveFault::PartitionOutOfSequence {
            expected: 0,
            actual: 1
        }
    );
    let mut writer = ArchiveWriter::create(&[0, 1]).unwrap();
    let record = &records()[0][0];
    assert_eq!(
        fault(writer.write_record(record)),
        ArchiveFault::RecordOutsidePartition
    );
    assert_eq!(
        fault(writer.end_partition()),
        ArchiveFault::EndOutsidePartition
    );
    assert_eq!(
        fault(writer.begin_partition(1)),
        ArchiveFault::UnexpectedPartition {
            expected: 0,
            actual: 1
        }
    );
    writer.begin_partition(0).unwrap();
    assert_eq!(
        fault(writer.begin_partition(1)),
        ArchiveFault::PartitionStillOpen(1)
    );
    writer.end_partition().unwrap();
    writer.begin_partition(1).unwrap();
    writer.end_partition().unwrap();
    assert_eq!(
        fault(writer.begin_partition(2)),
        ArchiveFault::UndeclaredPartition
    );
    writer.finish().unwrap();

    let mut writer = ArchiveWriter::create(&[0]).unwrap();
    writer.begin_partition(0).unwrap();
    assert_eq!(fault(writer.finish()), ArchiveFault::UnfinishedPartition);
    let writer = ArchiveWriter::create(&[0, 1]).unwrap();
    assert_eq!(fault(writer.finish()), ArchiveFault::MissingPartitions(2));
}

#[test]
fn preamble_faults_are_told_apart() {
    assert_eq!(
        fault(ArchiveReader::open(b"FRANS")),
        ArchiveFault::TruncatedHeader
    );
    assert_eq!(
        fault(ArchiveReader::open(b"FRANSSEN\x02\x00")),
        ArchiveFault::NotAnArchive
    );
    assert_eq!(
        fault(ArchiveReader::open(b"FRANSSON\x02")),
        ArchiveFault::UnexpectedEnd
    );
    assert_eq!(
        fault(ArchiveReader::open(b"FRANSSON\x03\x01")),
        ArchiveFault::UnsupportedVersion(259)
    );
    assert!(matches!(
        ArchiveReader::open(b"FRANSSON\x02\x00no zstd frame"),
        Err(ArchiveError::Io(_))
    ));
}

#[test]
fn content_faults_are_told_apart() {
    assert_eq!(
        fault(ArchiveReader::open(&archive_with(&[1, 0, 0, 0, 7, 0, 0, 0]))),
        ArchiveFault::PartitionOutOfSequence {
            expected: 0,
            actual: 7
        }
    );
    assert_eq!(
        fault(ArchiveReader::open(&archive_with(&[1, 0, 0, 0, 0, 0]))),
        ArchiveFault::UnexpectedEnd
    );
    let start: &[u8] = &[1, 0, 0, 0, 0, 0, 0, 0];
    let with = |rest: &[u8]| {
        let mut content = start.to_vec();
        content.extend_from_slice(rest);
        event_faults(&content)
    };
    assert_eq!(with(&[]), ArchiveFault::MissingRecordMarker);
    assert_eq!(with(&[9]), ArchiveFault::RecordMarker(9));
    assert_eq!(with(&[0, 5]), ArchiveFault::TrailingData);
    assert_eq!(with(&[1]), ArchiveFault::UnexpectedEnd);
    assert_eq!(with(&[1, 2]), ArchiveFault::TimestampMarker(2));
    assert_eq!(with(&[1, 0, 3]), ArchiveFault::BytesMarker(3));
    assert_eq!(
        with(&[1, 0, 1, 255, 255, 255, 255, 255, 255, 255, 255]),
        ArchiveFault::UnexpectedEnd
    );
    assert_eq!(
        with(&[1, 0, 0, 0, 1, 0, 0, 0, 1, 0, 0, 0, 0, 0, 0, 0, 0xff, 0]),
        ArchiveFault::HeaderKeyEncoding
    );
}

#[test]
fn faults_have_their_messages() {
    let text = |fault: ArchiveFault| fault.message("a.zst");
    assert_eq!(
        text(ArchiveFault::UnexpectedEnd),
        "failed to fill whole buffer"
    );
    assert_eq!(
        text(ArchiveFault::TruncatedHeader),
        "failed to read archive header from a.zst"
    );
    assert_eq!(
        text(ArchiveFault::NotAnArchive),
        "a.zst is not a fransson archive"
    );
    assert_eq!(
        text(ArchiveFault::PartitionOutOfSequence {
            expected: 1,
            actual: -3
        }),
        "archive partitions must be contiguous from 0; expected 1, got -3"
    );
    assert_eq!(
        text(ArchiveFault::TooManyPartitions),
        "too many archive partitions"
    );
    assert_eq!(
        text(ArchiveFault::HeaderCountLimit),
        "header count exceeds archive format limit"
    );
    assert_eq!(
        text(ArchiveFault::LengthLimit),
        "archive value length does not fit this platform"
    );
    assert_eq!(
        text(ArchiveFault::TimestampMarker(7)),
        "invalid optional timestamp marker 7"
    );
    assert_eq!(
        text(ArchiveFault::BytesMarker(8)),
        "invalid optional bytes marker 8"
    );
    assert_eq!(
        text(ArchiveFault::MissingRecordMarker),
        "failed to read archive record marker"
    );
    assert_eq!(
        text(ArchiveFault::RecordMarker(255)),
        "invalid archive record marker 255"
    );
    assert_eq!(
        text(ArchiveFault::HeaderKeyEncoding),
        "archive header key is not UTF-8"
    );
    assert_eq!(
        text(ArchiveFault::TrailingData),
        "archive has trailing decompressed data"
    );
    assert_eq!(
        text(ArchiveFault::PartitionStillOpen(4)),
        "cannot begin partition 4 before ending the current partition"
    );
    assert_eq!(
        text(ArchiveFault::UndeclaredPartition),
        "archive contains more partition blocks than declared"
    );
    assert_eq!(
        text(ArchiveFault::UnexpectedPartition {
            expected: 0,
            actual: 1
        }),
        "expected archive partition 0, got 1"
    );
    assert_eq!(
        text(ArchiveFault::RecordOutsidePartition),
        "cannot write an archive record outside a partition"
    );
    assert_eq!(
        text(ArchiveFault::EndOutsidePartition),
        "cannot end an archive partition before beginning it"
    );
    assert_eq!(
        text(ArchiveFault::UnfinishedPartition),
        "cannot finish archive with an open partition"
    );
    assert_eq!(
        text(ArchiveFault::MissingPartitions(12)),
        "archive is missing 12 partition blocks"
    );
}

#[test]
fn content_is_read_from_memory_too() {
    let content = zstd::stream::decode_all(&write_fixture()[10..]).unwrap();
    let mut reader = ContentReader::open(SliceSource::new(&content)).unwrap();
    assert_eq!(reader.partitions(), &[0, 1]);
    assert!(matches!(
        reader.next_event(),
        Ok(Some(ArchiveEvent::PartitionStart(0)))
    ));
    match reader.next_event() {
        Ok(Some(ArchiveEvent::Record(record))) => assert_eq!(record, records()[0][0]),
        _ => panic!("expected a record"),
    }
    assert!(matches!(
        reader.next_event(),
        Ok(Some(ArchiveEvent::PartitionEnd(0)))
    ));
    assert!(matches!(
        reader.next_event(),
        Ok(Some(ArchiveEvent::PartitionStart(1)))
    ));
    assert!(matches!(
        reader.next_event(),
        Ok(Some(ArchiveEvent::PartitionEnd(1)))
    ));
    assert!(matches!(reader.next_event(), Ok(None)));
    assert!(matches!(reader.next_event(), Ok(None)));
}

#[test]
fn fingerprints_are_sha256_in_hexadecimal() {
    assert_eq!(
        fingerprint(b"abc"),
        "ba7816bf8f01cfea414140de5dae2223b00361a396177a9cb410ff61f20015ad"
    );
    assert_eq!(
        fingerprint(b""),
        "e3b0c44298fc1c149afbf4c8996fb92427ae41e4649b934ca495991b7852b855"
    );
}

#[test]
fn summaries_tell_partitions_and_fingerprint() {
    let archive = write_fixture();
    let summary = summarize(&archive).unwrap();
    assert_eq!(summary.partitions, 2);
    assert_eq!(summary.fingerprint, fingerprint(&archive));
    assert_eq!(
        fault(summarize(b"FRANSSEN\x02\x00")),
        ArchiveFault::NotAnArchive
    );
}

#[test]
fn partitions_count_up_from_zero() {
    assert!(validate_partitions(&[]).is_ok());
    assert!(validate_partitions(&[0, 1, 2]).is_ok());
    assert_eq!(
        validate_partitions(&[0, 2]),
        Err(ArchiveFault::PartitionOutOfSequence {
            expected: 1,
            actual: 2
        })
    );
    assert_eq!(format_version(), 2);
}

#[test]
fn primitive_values_round_trip() {
    let mut out: Vec<u8> = Vec::new();
    write_u8(&mut out, 7);
    write_u16(&mut out, 0x0102);
    write_u32(&mut out, 0xdead_beef);
    write_i32(&mut out, -2);
    write_u64(&mut out, 0x0102_0304_0506_0708);
    write_optional_i64(&mut out, Some(i64::MIN));
    write_optional_i64(&mut out, None);
    write_bytes(&mut out, b"abc");
    write_optional_bytes(&mut out, &Some(vec![9]));
    write_optional_bytes(&mut out, &None);
    let mut expected: Vec<u8> = vec![7];
    expected.extend_from_slice(&0x0102u16.to_le_bytes());
    expected.extend_from_slice(&0xdead_beefu32.to_le_bytes());
    expected.extend_from_slice(&(-2i32).to_le_bytes());
    expected.extend_from_slice(&0x0102_0304_0506_0708u64.to_le_bytes());
    expected.push(1);
    expected.extend_from_slice(&i64::MIN.to_le_bytes());
    expected.push(0);
    expected.extend_from_slice(&3u64.to_le_bytes());
    expected.extend_from_slice(b"abc");
    expected.push(1);
    expected.extend_from_slice(&1u64.to_le_bytes());
    expected.push(9);
    expected.push(0);
    assert_eq!(out, expected);

    let mut source = SliceSource::new(&out);
    assert_eq!(read_u8(&mut source).unwrap(), 7);
    assert_eq!(read_u16(&mut source).unwrap(), 0x0102);
    assert_eq!(read_u32(&mut source).unwrap(), 0xdead_beef);
    assert_eq!(read_i32(&mut source).unwrap(), -2);
    assert_eq!(read_u64(&mut source).unwrap(), 0x0102_0304_0506_0708);
    assert_eq!(read_optional_i64(&mut source).unwrap(), Some(i64::MIN));
    assert_eq!(read_optional_i64(&mut source).unwrap(), None);
    assert_eq!(read_bytes(&mut source).unwrap(), b"abc".to_vec());
    assert_eq!(read_optional_bytes(&mut source).unwrap(), Some(vec![9]));
    assert_eq!(read_optional_bytes(&mut source).unwrap(), None);
    assert_eq!(
        fault(read_exact(&mut source, 1)),
        ArchiveFault::UnexpectedEnd
    );
    assert_eq!(
        usize_to_u32(5, ArchiveFault::HeaderCountLimit),
        Ok(5)
    );
    assert_eq!(u64_to_usize(9), Ok(9));
}

#[test]
fn negative_numbers_keep_their_sign() {
    for value in [i32::MIN, -1, 0, 1, i32::MAX] {
        let mut out: Vec<u8> = Vec::new();
        write_i32(&mut out, value);
        assert_eq!(out, value.to_le_bytes().to_vec());
        assert_eq!(read_i32(&mut SliceSource::new(&out)).unwrap(), value);
    }
    for value in [i64::MIN, -1, 0, 1, i64::MAX] {
        let mut out: Vec<u8> = Vec::new();
        write_optional_i64(&mut out, Some(value));
        assert_eq!(
            read_optional_i64(&mut SliceSource::new(&out)).unwrap(),
            Some(value)
        );
    }
}

#[test]
fn records_are_read_from_their_fields() {
    let bytes: Vec<u8> = vec![
        0, 0, 1, 2, 0, 0, 0, 0, 0, 0, 0, 4, 5, 1, 0, 0, 0, 2, 0, 0, 0, 0, 0, 0, 0, 0xc3, 0xa5, 0,
    ];
    let record = read_record(&mut SliceSource::new(&bytes)).unwrap();
    assert_eq!(
        record,
        ArchiveRecord {
            timestamp: None,
            key: None,
            payload: Some(vec![4, 5]),
            headers: vec![ArchiveHeader {
                key: "å".to_owned(),
                value: None
            }],
        }
    );
}

#[test]
fn archives_do_not_depend_on_how_they_are_written() {
    let mut writer = ArchiveWriter::create(&[0]).unwrap();
    writer.begin_partition(0).unwrap();
    let mut seed: u32 = 1;
    for _ in 0..400 {
        let payload: Vec<u8> = (0..1000)
            .map(|_| {
                seed = seed.wrapping_mul(1664525).wrapping_add(1013904223);
                (seed >> 28) as u8
            })
            .collect();
        writer
            .write_record(&ArchiveRecord {
                timestamp: Some(seed as i64),
                key: None,
                payload: Some(payload),
                headers: Vec::new(),
            })
            .unwrap();
    }
    writer.end_partition().unwrap();
    let archive = writer.finish().unwrap();
    let content = zstd::stream::decode_all(&archive[10..]).unwrap();
    for chunk in [1, 7, 4096, content.len()] {
        let mut encoder = zstd::stream::write::Encoder::new(Vec::new(), 3).unwrap();
        encoder.include_checksum(true).unwrap();
        for part in content.chunks(chunk) {
            encoder.write_all(part).unwrap();
        }
        assert_eq!(encoder.finish().unwrap(), archive[10..]);
    }
}
