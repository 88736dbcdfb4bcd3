use fransson::archive::{ArchiveHeader, ArchiveReader, ArchiveEvent, ArchiveRecord, fingerprint};
use fransson::assignment::{build_assignment, plan_assignment};
use fransson::dump::{
    check_output, dump_partitions, prepare_dump, reading_assignment, DumpError, DumpProgress, DumpSession, DumpStep,
};
use fransson::config::{
    AppConfig, CloneConfig, DestinationKafkaConfig, DestinationTopicConfig, SourceKafkaConfig,
    StaticTopicConfig, StreamConfig,
};
use fransson::execution::{
    judge_exit, needs_stream_producer, plan_partition_work, prepare_execution, resolve_state_path,
    verdict_message,
    ExecutionMode, TaskExit, TaskKind, Verdict,
};
use fransson::failure::Failure;
use fransson::metadata::{Metadata, MetadataPartition, MetadataTopic};
use fransson::partition_loop::{
    choose_producer, finish_partition, handle_delivery_result, handle_receive_error, show_receive_error,
    show_source_error, show_stray_message, DeliveryResult, LoopAction, MessageAction,
    PartitionLoop, ProducerChoice, ReceiveError,
};
use fransson::records::{
    archive_record_from_message, forward_message, restore_failure, restore_record, send_timeout,
    OutgoingRecord, SendTimeout, SourceMessage,
};
use fransson::restore::{
    RestoreAction, RestoreError, RestoreProgress, RestoreSession, RestoreStep,
    MAX_IN_FLIGHT_PER_PARTITION,
};
use fransson::state::OffsetState;
use fransson::status::{render_status_board, StatusBoard};
use fransson::text_map::TextMap;
use fransson::topics::{SourceTopicRef, TransferKind, TransferPlan};
use fransson::transfers::{
    build_transfer_map, clone_boundary_key, clone_end_offsets, record_watermarks, StartOffset,
    Watermarks,
};
use fransson::wire::{ArchiveError, ArchiveFault};
use rdkafka::topic_partition_list::Offset;

fn source() -> SourceTopicRef {
    SourceTopicRef {
        instance: "primary".to_owned(),
        topic: "source".to_owned(),
    }
}

fn plan(kind: TransferKind) -> TransferPlan {
    TransferPlan {
        destination_topic: "destination".to_owned(),
        source: source(),
        kind,
    }
}

fn metadata(partitions: &[i32]) -> Metadata {
    Metadata {
        topics: vec![MetadataTopic {
            name: "source".to_owned(),
            error: None,
            partitions: partitions
                .iter()
                .map(|id| MetadataPartition {
                    id: *id,
                    replicas: 1,
                })
                .collect(),
        }],
    }
}

fn record() -> ArchiveRecord {
    ArchiveRecord {
        timestamp: Some(1234),
        key: Some(b"key".to_vec()),
        payload: Some(b"payload".to_vec()),
        headers: vec![
            ArchiveHeader {
                key: "duplicate".to_owned(),
                value: Some(b"one".to_vec()),
            },
            ArchiveHeader {
                key: "duplicate".to_owned(),
                value: None,
            },
        ],
    }
}

fn message_at(partition: i32, offset: i64) -> SourceMessage {
    let record = record();
    SourceMessage {
        topic: "source".to_owned(),
        partition,
        offset,
        timestamp: record.timestamp,
        key: record.key,
        payload: record.payload,
        headers: Some(record.headers),
    }
}

fn text<T>(result: Result<T, Failure>) -> String {
    match result {
        Ok(_) => panic!("unexpected success"),
        Err(failure) => failure.message,
    }
}

fn failed<T>(result: Result<T, DumpError>) -> String {
    match result {
        Ok(_) => panic!("unexpected success"),
        Err(DumpError::Failed(failure)) => failure.message,
        Err(DumpError::Archive(_)) => panic!("unexpected archive error"),
    }
}

fn board(partitions: &[i32], kind: TransferKind) -> StatusBoard {
    let mut board = StatusBoard::new();
    board
        .initialize_status_lines(&metadata(partitions), &[plan(kind)], &OffsetState::default())
        .unwrap();
    board
}

#[test]
fn streams_are_assigned_at_the_end_whatever_is_saved() {
    let plans = [plan(TransferKind::Stream)];
    let mut state = OffsetState::default();
    state.update_next_offset("destination", &source(), 0, 0);
    let assignment =
        build_assignment(&metadata(&[0]), &plans, &state, &TextMap::new(), &TextMap::new()).unwrap();
    assert_eq!(
        assignment.find_partition("source", 0).unwrap().offset(),
        Offset::End
    );
    assert_eq!(assignment.count(), 1);
}

#[test]
fn clones_are_assigned_where_they_left_off() {
    let plans = [plan(TransferKind::Clone)];
    let mut state = OffsetState::default();
    state.update_next_offset("destination", &source(), 1, 42);
    let assignment =
        build_assignment(&metadata(&[0, 1]), &plans, &state, &TextMap::new(), &TextMap::new())
            .unwrap();
    assert_eq!(assignment.count(), 2);
    assert_eq!(
        assignment.find_partition("source", 0).unwrap().offset(),
        Offset::Beginning
    );
    assert_eq!(
        assignment.find_partition("source", 1).unwrap().offset(),
        Offset::Offset(42)
    );
    let starts = plan_assignment(
        &metadata(&[0, 1]),
        &plans,
        &state,
        &TextMap::new(),
        &TextMap::new(),
    )
    .unwrap();
    assert_eq!(starts.len(), 2);
    assert_eq!(starts[0].offset, StartOffset::Beginning);
    assert_eq!(starts[1].topic, "source");
    assert_eq!(starts[1].partition, 1);
    assert_eq!(starts[1].offset, StartOffset::At(42));
}

#[test]
fn assignments_are_refused() {
    let plans = [plan(TransferKind::Clone)];
    let mut state = OffsetState::default();
    assert_eq!(
        text(build_assignment(
            &Metadata { topics: Vec::new() },
            &plans,
            &state,
            &TextMap::new(),
            &TextMap::new()
        )),
        "missing metadata for source topic source"
    );
    state.update_next_offset("destination", &source(), 0, 42);
    let mut ends: TextMap<i64> = TextMap::new();
    ends.insert("primary:source:0".to_owned(), 41);
    assert_eq!(
        text(build_assignment(&metadata(&[0]), &plans, &state, &ends, &TextMap::new())),
        "saved offset 42 is beyond captured end offset 41 for primary:source partition 0"
    );
    ends.insert("primary:source:0".to_owned(), 42);
    assert!(build_assignment(&metadata(&[0]), &plans, &state, &ends, &TextMap::new()).is_ok());
    state.update_next_offset("destination", &source(), 0, -7);
    match build_assignment(&metadata(&[0]), &plans, &state, &ends, &TextMap::new()) {
        Ok(_) => panic!("a negative offset was assigned"),
        Err(failure) => {
            assert_eq!(
                failure.message,
                "failed to assign primary:source partition 0"
            );
            assert_eq!(
                failure.cause.as_deref(),
                Some("Set partition offset error: InvalidArgument (Local: Invalid argument or configuration)")
            );
        }
    }
}

#[test]
fn checkpoints_outside_the_watermarks_are_refused() {
    let plans = [plan(TransferKind::Clone)];
    let mut state = OffsetState::default();
    let mut bounds: TextMap<Watermarks> = TextMap::new();
    record_watermarks(&mut bounds, "primary", "source", &[marks(0, 10, 20)]);
    let assigned = |state: &OffsetState, plans: &[TransferPlan]| {
        build_assignment(&metadata(&[0]), plans, state, &TextMap::new(), &bounds)
    };
    assert!(assigned(&state, &plans).is_ok());
    state.update_next_offset("destination", &source(), 0, 9);
    assert_eq!(
        text(assigned(&state, &plans)),
        "saved offset 9 is outside source watermarks 10 to 20 for primary:source partition 0"
    );
    assert!(assigned(&state, &[plan(TransferKind::Stream)]).is_ok());
    state.update_next_offset("destination", &source(), 0, 21);
    assert_eq!(
        text(assigned(&state, &plans)),
        "saved offset 21 is outside source watermarks 10 to 20 for primary:source partition 0"
    );
    for saved in [10, 20] {
        state.update_next_offset("destination", &source(), 0, saved);
        assert_eq!(
            assigned(&state, &plans)
                .unwrap()
                .find_partition("source", 0)
                .unwrap()
                .offset(),
            Offset::Offset(saved)
        );
    }
}

#[test]
fn repeated_partitions_start_once() {
    let plans = [plan(TransferKind::Clone)];
    let list = build_assignment(
        &metadata(&[0, 0]),
        &plans,
        &OffsetState::default(),
        &TextMap::new(),
        &TextMap::new(),
    )
    .unwrap();
    let offsets: Vec<Offset> = list.elements().iter().map(|item| item.offset()).collect();
    assert_eq!(offsets, vec![Offset::Beginning, Offset::Invalid]);
}

#[test]
fn watermarks_bound_clones() {
    let mut bounds = TextMap::new();
    record_watermarks(
        &mut bounds,
        "primary",
        "source",
        &[
            Watermarks {
                partition: 0,
                low: 1,
                high: 5,
            },
            Watermarks {
                partition: 1,
                low: 2,
                high: 9,
            },
        ],
    );
    let ends = clone_end_offsets(&bounds);
    assert_eq!(ends.len(), 2);
    assert_eq!(ends.get("primary:source:1"), Some(&9));
    assert_eq!(
        clone_boundary_key("primary", "source", 1),
        "primary:source:1"
    );
}

#[test]
fn forwarded_records_keep_their_identity() {
    let forwarded = forward_message(&plan(TransferKind::Clone), message_at(3, 41));
    assert_eq!(forwarded.next_offset, 42);
    assert_eq!(forwarded.source_topic, "source");
    let OutgoingRecord {
        topic,
        partition,
        timestamp,
        key,
        payload,
        headers,
    } = forwarded.record;
    assert_eq!(topic, "destination");
    assert_eq!(partition, 3);
    assert_eq!(timestamp, Some(1234));
    assert_eq!(key, Some(b"key".to_vec()));
    assert_eq!(payload, Some(b"payload".to_vec()));
    assert_eq!(headers, Some(record().headers));
    assert_eq!(send_timeout(TransferKind::Clone), SendTimeout::Seconds(30));
    assert_eq!(send_timeout(TransferKind::Stream), SendTimeout::Never);
}

#[test]
fn restored_records_dump_as_they_were() {
    let sent = restore_record("destination", 1, record());
    assert_eq!(sent.partition, 1);
    let again = archive_record_from_message(SourceMessage {
        topic: sent.topic,
        partition: sent.partition,
        offset: 0,
        timestamp: sent.timestamp,
        key: sent.key,
        payload: sent.payload,
        headers: sent.headers,
    });
    assert_eq!(again, record());

    let bare = ArchiveRecord {
        timestamp: None,
        key: None,
        payload: None,
        headers: Vec::new(),
    };
    let sent = restore_record("destination", 0, bare.clone());
    assert!(sent.headers.is_none());
    let mut message = message_at(0, 0);
    message.timestamp = None;
    message.key = None;
    message.payload = None;
    message.headers = None;
    assert_eq!(archive_record_from_message(message), bare);
    assert_eq!(
        restore_failure("t", 2, "lost"),
        "restore delivery failed for t partition 2: lost"
    );
}

#[test]
fn producers_are_chosen_by_kind() {
    assert_eq!(
        choose_producer(TransferKind::Clone, false).unwrap(),
        ProducerChoice::Shared
    );
    assert_eq!(
        choose_producer(TransferKind::Stream, true).unwrap(),
        ProducerChoice::Stream
    );
    assert_eq!(
        text(choose_producer(TransferKind::Stream, false)),
        "stream producer is unavailable outside run mode"
    );
}

#[test]
fn partition_loops_limit_their_flight_and_drain_at_the_end() {
    let mut partition = PartitionLoop::new(2, Some(8), Some(10));
    assert_eq!(partition.next_action(), LoopAction::Receive);
    assert_eq!(partition.on_message(8), MessageAction::Send);
    assert_eq!(partition.next_action(), LoopAction::Receive);
    assert_eq!(partition.on_message(9), MessageAction::Send);
    assert_eq!(partition.next_action(), LoopAction::AwaitDelivery);
    partition.on_delivery();
    assert_eq!(partition.next_action(), LoopAction::Receive);
    assert_eq!(partition.on_message(10), MessageAction::Leave);
    assert_eq!(partition.next_action(), LoopAction::AwaitDelivery);
    partition.on_delivery();
    assert_eq!(partition.next_action(), LoopAction::Finish);
}

fn eof(partition: i32, position: Option<i64>) -> ReceiveError {
    ReceiveError::PartitionEof {
        partition,
        position,
    }
}

#[test]
fn partition_loops_end_at_the_end_of_the_partition() {
    for (start, position) in [
        (Some(4), Some(10)),
        (Some(4), Some(12)),
        (Some(10), None),
        (None, Some(10)),
    ] {
        let mut bounded = PartitionLoop::new(1, start, Some(10));
        assert_eq!(bounded.next_action(), LoopAction::Receive);
        assert_eq!(bounded.on_receive_error(eof(0, position)).unwrap(), None);
        assert_eq!(bounded.next_action(), LoopAction::Finish);
    }

    let mut endless = PartitionLoop::new(1, None, None);
    assert_eq!(endless.on_message(i64::MAX - 1), MessageAction::Send);
    endless.on_delivery();
    assert_eq!(
        endless.on_receive_error(eof(4, Some(7))).unwrap(),
        Some("Partition EOF: 4".to_owned())
    );
    assert_eq!(endless.next_action(), LoopAction::Receive);
}

#[test]
fn consumer_failures_stop_the_transfer() {
    for end in [Some(10), None] {
        let mut stopped = PartitionLoop::new(1, Some(0), end);
        assert_eq!(
            text(stopped.on_receive_error(ReceiveError::Other("reset".to_owned()))),
            "reset"
        );
        assert_eq!(stopped.next_action(), LoopAction::Receive);
    }
}

#[test]
fn partitions_that_run_out_early_stop_the_transfer() {
    let run_out = |start: Option<i64>, position: Option<i64>| {
        let mut bounded = PartitionLoop::new(1, start, Some(10));
        let message = text(bounded.on_receive_error(eof(3, position)));
        assert_eq!(bounded.next_action(), LoopAction::Receive);
        message
    };
    assert_eq!(
        run_out(Some(4), Some(9)),
        "partition 3 ran out at offset 9 before its captured end offset 10"
    );
    assert_eq!(
        run_out(Some(4), None),
        "partition 3 ran out at offset 4 before its captured end offset 10"
    );
    assert_eq!(
        run_out(None, None),
        "partition 3 ran out at an unknown offset before its captured end offset 10"
    );
}

#[test]
fn receive_errors_are_shown_and_handed_back() {
    let clone = plan(TransferKind::Clone);
    let mut status = board(&[0], TransferKind::Clone);
    let mut progress = PartitionLoop::new(1, Some(0), Some(10));
    assert_eq!(
        text(handle_receive_error(
            &mut progress,
            &clone,
            0,
            ReceiveError::Other("reset".to_owned()),
            &mut status
        )),
        "consumer error on source primary partition 0: reset"
    );
    assert!(render_status_board(&status)
        .contains("consumer error on source primary partition 0: reset"));
    assert_eq!(
        text(handle_receive_error(
            &mut progress,
            &clone,
            0,
            eof(0, Some(2)),
            &mut status
        )),
        "consumer error on source primary partition 0: \
         partition 0 ran out at offset 2 before its captured end offset 10"
    );

    let mut status = board(&[0], TransferKind::Clone);
    let before = render_status_board(&status);
    handle_receive_error(&mut progress, &clone, 0, eof(0, Some(10)), &mut status).unwrap();
    assert_eq!(progress.next_action(), LoopAction::Finish);
    assert_eq!(render_status_board(&status), before);

    let mut endless = PartitionLoop::new(1, None, None);
    handle_receive_error(&mut endless, &clone, 0, eof(0, None), &mut status).unwrap();
    assert_eq!(endless.next_action(), LoopAction::Receive);
    assert!(render_status_board(&status)
        .contains("consumer error on source primary partition 0: Partition EOF: 0"));
}

#[test]
fn progress_is_recorded_after_acknowledgement() {
    let delivery = |result: Result<(), String>| DeliveryResult {
        source_topic: "source".to_owned(),
        destination_topic: "destination".to_owned(),
        partition: 0,
        next_offset: 43,
        produce_result: result,
    };
    let mut state = OffsetState::default();
    let mut status = board(&[0], TransferKind::Clone);
    let error = text(handle_delivery_result(
        &plan(TransferKind::Clone),
        delivery(Err("lost".to_owned())),
        &mut state,
        &mut status,
    ));
    assert_eq!(
        error,
        "produce error from source primary:source to destination destination: lost"
    );
    assert_eq!(state.next_offset("destination", 0), None);
    assert!(render_status_board(&status).contains(&error));

    assert!(handle_delivery_result(
        &plan(TransferKind::Clone),
        delivery(Ok(())),
        &mut state,
        &mut status
    )
    .unwrap());
    assert_eq!(state.next_offset("destination", 0), Some(43));
    assert!(render_status_board(&status).contains("          43  "));

    let mut state = OffsetState::default();
    assert!(!handle_delivery_result(
        &plan(TransferKind::Stream),
        delivery(Ok(())),
        &mut state,
        &mut status
    )
    .unwrap());
    assert_eq!(state.next_offset("destination", 0), None);
}

#[test]
fn finished_partitions_reach_their_end() {
    let mut state = OffsetState::default();
    let mut status = board(&[0], TransferKind::Clone);
    let clone = plan(TransferKind::Clone);
    assert!(!finish_partition(&clone, 0, None, &mut state, &mut status));
    assert!(finish_partition(
        &clone,
        0,
        Some(5),
        &mut state,
        &mut status
    ));
    assert_eq!(state.next_offset("destination", 0), Some(5));
    assert!(!finish_partition(
        &clone,
        0,
        Some(5),
        &mut state,
        &mut status
    ));
    assert!(!finish_partition(
        &clone,
        0,
        Some(4),
        &mut state,
        &mut status
    ));
    assert_eq!(state.next_offset("destination", 0), Some(5));
    assert!(render_status_board(&status).contains("           5  "));
}

#[test]
fn consumer_troubles_are_shown() {
    let mut status = board(&[0], TransferKind::Clone);
    let shown = show_receive_error(&mut status, &plan(TransferKind::Clone), 0, "reset");
    assert_eq!(shown, "consumer error on source primary partition 0: reset");
    assert!(render_status_board(&status)
        .contains("consumer error on source primary partition 0: reset"));
    let map = build_transfer_map(&[plan(TransferKind::Clone)]);
    show_stray_message(&mut status, &map, "primary", "source", 0);
    assert!(render_status_board(&status).contains(
        "unexpected message on shared consumer queue for source primary:source partition 0"
    ));
    show_stray_message(&mut status, &map, "primary", "unknown", 0);
    assert!(render_status_board(&status)
        .contains("received message for unconfigured source topic unknown on source primary"));
    show_source_error(&mut status, "primary", "down");
    assert!(render_status_board(&status).contains("consumer error on source primary: down"));
}

fn marks(partition: i32, low: i64, high: i64) -> Watermarks {
    Watermarks {
        partition,
        low,
        high,
    }
}

#[test]
fn dumps_stop_at_their_watermarks() {
    let mut session = DumpSession::start(
        "source",
        "group",
        &[0, 1, 2],
        vec![marks(1, 5, 7), marks(0, 3, 3), marks(2, 0, 9)],
    )
    .unwrap();
    assert_eq!(session.next_step().unwrap(), DumpStep::Next);
    assert_eq!(
        session.next_step().unwrap(),
        DumpStep::Read {
            partition: 1,
            from: 5
        }
    );
    assert_eq!(
        session.on_message(message_at(1, 5)).unwrap(),
        DumpProgress::More
    );
    assert_eq!(
        session.on_message(message_at(1, 6)).unwrap(),
        DumpProgress::More
    );
    assert_eq!(
        session.on_message(message_at(1, 7)).unwrap(),
        DumpProgress::PartitionDone
    );
    assert_eq!(
        session.next_step().unwrap(),
        DumpStep::Read {
            partition: 2,
            from: 0
        }
    );
    assert_eq!(
        session.on_error(eof(2, Some(9))).unwrap(),
        DumpProgress::PartitionDone
    );
    assert_eq!(session.next_step().unwrap(), DumpStep::Finish);
    let archive = session.finish().unwrap();

    let mut reader = ArchiveReader::open(&archive).unwrap();
    assert_eq!(reader.partitions(), &[0, 1, 2]);
    let mut sizes = Vec::new();
    while let Some(event) = reader.next_event().unwrap() {
        match event {
            ArchiveEvent::PartitionStart(_) => sizes.push(0),
            ArchiveEvent::Record(found) => {
                assert_eq!(found, record());
                *sizes.last_mut().unwrap() += 1;
            }
            ArchiveEvent::PartitionEnd(_) => {}
        }
    }
    assert_eq!(sizes, vec![0, 2, 0]);
}

#[test]
fn dumped_partitions_are_assigned() {
    let list = reading_assignment("source", 3, 7).unwrap();
    assert_eq!(list.count(), 1);
    assert_eq!(
        list.find_partition("source", 3).unwrap().offset(),
        Offset::Offset(7)
    );
    assert_eq!(
        text(reading_assignment("source", 3, -1)),
        "Set partition offset error: InvalidArgument (Local: Invalid argument or configuration)"
    );
    assert_eq!(
        text(reading_assignment("sou\0rce", 3, 7)),
        "topic name contains a NUL byte"
    );
}

#[test]
fn dumps_fail_loudly() {
    let start = || {
        let mut session =
            DumpSession::start("source", "group", &[0], vec![marks(0, 0, 9)]).unwrap();
        session.next_step().unwrap();
        session
    };
    assert_eq!(
        failed(start().on_message(message_at(4, 0))),
        "received unexpected partition 4 while dumping partition 0"
    );
    assert_eq!(
        failed(start().on_error(ReceiveError::Other("gone".to_owned()))),
        "consumer error while dumping source partition 0 using group group: gone"
    );
    assert_eq!(
        failed(start().on_error(eof(1, Some(9)))),
        "consumer error while dumping source partition 0 using group group: Partition EOF: 1"
    );
    assert_eq!(
        failed(start().on_error(eof(0, Some(8)))),
        "consumer error while dumping source partition 0 using group group: \
         partition 0 ran out at offset 8 before its captured end offset 9"
    );
    assert_eq!(
        failed(start().on_error(eof(0, None))),
        "consumer error while dumping source partition 0 using group group: \
         partition 0 ran out at offset 0 before its captured end offset 9"
    );
    let mut session = DumpSession::start("source", "group", &[0], Vec::new()).unwrap();
    assert_eq!(
        failed(session.next_step()),
        "missing captured watermarks for partition 0"
    );
    assert!(matches!(
        DumpSession::start("source", "group", &[1], Vec::new()),
        Err(DumpError::Archive(ArchiveError::Fault(
            ArchiveFault::PartitionOutOfSequence {
                expected: 0,
                actual: 1
            }
        )))
    ));
}

#[test]
fn dumped_partitions_are_sorted() {
    assert_eq!(
        dump_partitions(&metadata(&[2, 0, 1]), "source").unwrap(),
        vec![0, 1, 2]
    );
    assert_eq!(
        text(dump_partitions(&metadata(&[]), "other")),
        "source topic other not found"
    );
    let mut broken = metadata(&[0]);
    broken.topics[0].error = Some("Unknown".to_owned());
    assert_eq!(
        text(dump_partitions(&broken, "source")),
        "source topic source metadata error: Unknown"
    );
    assert!(check_output(false, false, "a").is_ok());
    assert!(check_output(true, true, "a").is_ok());
    assert_eq!(
        text(check_output(true, false, "a")),
        "output archive a already exists; use --force to replace it"
    );
}

fn dump_of(records: usize) -> Vec<u8> {
    let high = records as i64;
    let mut session =
        DumpSession::start("source", "group", &[0], vec![marks(0, 0, high)]).unwrap();
    session.next_step().unwrap();
    for offset in 0..records {
        session.on_message(message_at(0, offset as i64)).unwrap();
    }
    session.on_error(eof(0, Some(high))).unwrap();
    session.finish().unwrap()
}

#[test]
fn restores_send_every_record_and_wait() {
    let archive = dump_of(MAX_IN_FLIGHT_PER_PARTITION + 3);
    let planned = fingerprint(&archive);
    let mut session = RestoreSession::start(&archive, &planned, "destination").unwrap();
    let mut flying = 0usize;
    let mut most = 0usize;
    let mut sent = 0usize;
    loop {
        match session.next_action().unwrap() {
            RestoreAction::Next => {}
            RestoreAction::AwaitDelivery => {
                flying -= 1;
                session.on_delivery();
            }
            RestoreAction::Send(outgoing) => {
                assert_eq!(outgoing.topic, "destination");
                assert_eq!(outgoing.partition, 0);
                assert_eq!(outgoing.timestamp, Some(1234));
                assert_eq!(outgoing.headers, Some(record().headers));
                flying += 1;
                sent += 1;
                most = most.max(flying);
            }
            RestoreAction::Finished => break,
        }
    }
    assert_eq!(flying, 0);
    assert_eq!(sent, MAX_IN_FLIGHT_PER_PARTITION + 3);
    assert_eq!(most, MAX_IN_FLIGHT_PER_PARTITION);
}

#[test]
fn dump_restore_dump_is_byte_identical() {
    let first = dump_of(5);
    let mut restored = Vec::new();
    let planned = fingerprint(&first);
    let mut session = RestoreSession::start(&first, &planned, "destination").unwrap();
    loop {
        match session.next_action().unwrap() {
            RestoreAction::Send(outgoing) => restored.push(outgoing),
            RestoreAction::AwaitDelivery => session.on_delivery(),
            RestoreAction::Next => {}
            RestoreAction::Finished => break,
        }
    }
    let mut dump =
        DumpSession::start("destination", "group", &[0], vec![marks(0, 0, 5)]).unwrap();
    dump.next_step().unwrap();
    for (offset, sent) in restored.into_iter().enumerate() {
        let message = SourceMessage {
            topic: sent.topic,
            partition: sent.partition,
            offset: offset as i64,
            timestamp: sent.timestamp,
            key: sent.key,
            payload: sent.payload,
            headers: sent.headers,
        };
        assert_eq!(dump.on_message(message).unwrap(), DumpProgress::More);
    }
    dump.on_error(eof(0, Some(5))).unwrap();
    assert_eq!(dump.finish().unwrap(), first);
}

#[test]
fn changed_archives_are_not_restored() {
    let archive = dump_of(1);
    match RestoreSession::start(&archive, "planned", "destination") {
        Err(RestoreError::Failed(failure)) => assert_eq!(
            failure.message,
            format!(
                "restore archive changed: its fingerprint is {} but was planned",
                fingerprint(&archive)
            )
        ),
        _ => panic!("expected a failure"),
    }
    let garbage = b"garbage";
    assert!(matches!(
        RestoreSession::start(garbage, &fingerprint(garbage), "destination"),
        Err(RestoreError::Archive(ArchiveError::Fault(
            ArchiveFault::TruncatedHeader
        )))
    ));
}

#[test]
fn restore_progress_follows_the_events() {
    let mut progress = RestoreProgress::new();
    assert!(!progress.must_wait());
    assert_eq!(
        text(progress.on_event(Some(ArchiveEvent::Record(record())))),
        "archive record appeared outside a partition"
    );
    assert_eq!(
        text(progress.on_event(Some(ArchiveEvent::PartitionEnd(3)))),
        "archive partition boundary mismatch for partition 3"
    );
    assert!(matches!(
        progress.on_event(Some(ArchiveEvent::PartitionStart(3))),
        Ok(RestoreStep::Next)
    ));
    assert!(matches!(
        progress.on_event(Some(ArchiveEvent::Record(record()))),
        Ok(RestoreStep::Send(3, _))
    ));
    assert_eq!(
        text(progress.on_event(None)),
        "archive ended inside a partition"
    );
    assert!(matches!(
        progress.on_event(Some(ArchiveEvent::PartitionEnd(3))),
        Ok(RestoreStep::Next)
    ));
    assert!(progress.must_wait());
    progress.on_delivery();
    assert!(!progress.must_wait());
    assert!(matches!(
        progress.on_event(None),
        Ok(RestoreStep::Finished)
    ));
}

fn source_config() -> SourceKafkaConfig {
    SourceKafkaConfig {
        bootstrap_servers: "localhost:9092".to_owned(),
        client_id: None,
        group_id: "group".to_owned(),
        max_in_flight_per_partition: 64,
        security_protocol: None,
        sasl: None,
        properties: TextMap::new(),
    }
}

fn topic(name: &str) -> DestinationTopicConfig {
    DestinationTopicConfig {
        name: name.to_owned(),
        force: false,
        replication_factor: None,
        config: TextMap::new(),
        manage: None,
        empty: None,
        clone: None,
        stream: None,
        restore: None,
    }
}

fn config(topics: Vec<DestinationTopicConfig>) -> AppConfig {
    let mut sources = TextMap::new();
    sources.insert("primary".to_owned(), source_config());
    AppConfig {
        state_file: Some("state.json".to_owned()),
        sources,
        destination: Some(DestinationKafkaConfig {
            bootstrap_servers: "localhost:9093".to_owned(),
            client_id: None,
            security_protocol: None,
            sasl: None,
            properties: TextMap::new(),
        }),
        topics,
    }
}

#[test]
fn dumps_need_a_known_source() {
    let config = config(Vec::new());
    let reference = prepare_dump(&config, Some(""), "primary:orders").unwrap();
    assert_eq!(reference.display(), "primary:orders");
    assert_eq!(
        text(prepare_dump(&config, Some(""), "other:orders")),
        "dump references unknown source other"
    );
    let failure = prepare_dump(&config, Some(""), "orders").unwrap_err();
    assert_eq!(failure.message, "invalid dump source reference orders");
    assert_eq!(
        failure.cause.as_deref(),
        Some("expected format <source>:<topic>, got orders")
    );
}

#[test]
fn commands_need_their_configuration() {
    let mut manage = topic("m");
    manage.manage = Some(StaticTopicConfig { partitions: 1 });
    let mut idle = config(vec![manage]);
    let execution = prepare_execution(&idle, Some("dir"), None, ExecutionMode::Restore).unwrap();
    assert_eq!(execution.state_file, "dir/state.json");
    assert_eq!(execution.topics.len(), 1);
    assert!(execution.transfer_topics.is_empty());
    assert_eq!(
        text(prepare_execution(&idle, Some("dir"), None, ExecutionMode::Run)),
        "run requires at least one clone or stream topic"
    );
    idle.destination = None;
    assert_eq!(
        text(prepare_execution(&idle, None, None, ExecutionMode::Restore)),
        "destination is required by restore and run"
    );
    assert_eq!(
        text(prepare_execution(
            &config(Vec::new()),
            None,
            None,
            ExecutionMode::Restore
        )),
        "topics must contain at least one destination for restore and run"
    );
}

#[test]
fn state_has_its_place() {
    let file = Some("state.json".to_owned());
    assert_eq!(
        resolve_state_path(Some("dir"), &file, None),
        "dir/state.json"
    );
    assert_eq!(
        resolve_state_path(Some("dir"), &file, Some("/var/lib/fransson")),
        "/var/lib/fransson/state.json"
    );
    assert_eq!(
        resolve_state_path(Some("dir"), &None, None),
        ".fransson/state.json"
    );
}

#[test]
fn streams_are_transferred_only_while_running() {
    let mut clone = topic("c");
    clone.clone = Some(CloneConfig {
        source: "primary:one".to_owned(),
    });
    let mut stream = topic("s");
    stream.stream = Some(StreamConfig {
        source: "primary:two".to_owned(),
    });
    let config = config(vec![clone, stream]);
    let execution = prepare_execution(&config, Some(""), None, ExecutionMode::Run).unwrap();
    assert_eq!(execution.transfer_topics.get("primary").unwrap().len(), 2);
    assert_eq!(execution.clone_topics.get("primary").unwrap().len(), 1);
    assert!(needs_stream_producer(
        ExecutionMode::Run,
        &execution.topics
    ));
    assert!(!needs_stream_producer(
        ExecutionMode::Restore,
        &execution.topics
    ));
    assert!(!needs_stream_producer(
        ExecutionMode::Run,
        &execution.topics[..1]
    ));
}

#[test]
fn partitions_end_only_while_restoring() {
    let plans = [plan(TransferKind::Clone)];
    let mut state = OffsetState::default();
    let mut bounds: TextMap<Watermarks> = TextMap::new();
    record_watermarks(&mut bounds, "primary", "source", &[marks(0, 2, 5)]);
    let ends = clone_end_offsets(&bounds);
    let planned = |metadata: &Metadata, mode: ExecutionMode, state: &OffsetState| {
        plan_partition_work(metadata, &plans, mode, state, &ends, &bounds)
    };
    let work = planned(&metadata(&[0]), ExecutionMode::Restore, &state).unwrap();
    assert_eq!(work.len(), 1);
    assert_eq!(work[0].partition, 0);
    assert_eq!(work[0].start_offset, Some(2));
    assert_eq!(work[0].end_offset, Some(5));
    state.update_next_offset("destination", &source(), 0, 4);
    let work = planned(&metadata(&[0]), ExecutionMode::Restore, &state).unwrap();
    assert_eq!(work[0].start_offset, Some(4));
    let work = planned(&metadata(&[0, 1]), ExecutionMode::Run, &state).unwrap();
    assert_eq!(work.len(), 2);
    assert_eq!(work[0].start_offset, None);
    assert_eq!(work[1].end_offset, None);
    assert_eq!(
        text(planned(&metadata(&[0, 1]), ExecutionMode::Restore, &state)),
        "missing captured end offset for primary:source partition 1"
    );
    assert_eq!(
        text(planned(
            &Metadata { topics: Vec::new() },
            ExecutionMode::Run,
            &state
        )),
        "missing metadata for source topic source"
    );
}

#[test]
fn commands_stop_with_their_tasks() {
    assert_eq!(
        judge_exit(ExecutionMode::Restore, TaskKind::Worker, TaskExit::Finished),
        Verdict::GoOn
    );
    assert_eq!(
        judge_exit(ExecutionMode::Run, TaskKind::Worker, TaskExit::Finished),
        Verdict::Unexpected
    );
    assert_eq!(
        judge_exit(ExecutionMode::Restore, TaskKind::Background, TaskExit::Finished),
        Verdict::Unexpected
    );
    assert_eq!(
        judge_exit(ExecutionMode::Run, TaskKind::Worker, TaskExit::Failed),
        Verdict::FailAsTask
    );
    assert_eq!(
        judge_exit(ExecutionMode::Run, TaskKind::Background, TaskExit::Panicked),
        Verdict::Panicked
    );
    let message = |mode, task, exit| verdict_message(mode, task, judge_exit(mode, task, exit));
    assert_eq!(message(ExecutionMode::Restore, TaskKind::Worker, TaskExit::Finished), None);
    assert_eq!(message(ExecutionMode::Run, TaskKind::Worker, TaskExit::Failed), None);
    assert_eq!(
        message(ExecutionMode::Run, TaskKind::Worker, TaskExit::Finished).unwrap(),
        "transfer partition task exited unexpectedly"
    );
    assert_eq!(
        message(ExecutionMode::Run, TaskKind::Background, TaskExit::Finished).unwrap(),
        "background task exited unexpectedly"
    );
    assert_eq!(
        message(ExecutionMode::Restore, TaskKind::Worker, TaskExit::Panicked).unwrap(),
        "transfer partition task panicked"
    );
    assert_eq!(
        message(ExecutionMode::Restore, TaskKind::Background, TaskExit::Panicked).unwrap(),
        "background task panicked"
    );
    assert_eq!(
        message(ExecutionMode::Restore, TaskKind::Worker, TaskExit::NoneLeft).unwrap(),
        "transfer partition task disappeared"
    );
    assert_eq!(
        message(ExecutionMode::Run, TaskKind::Worker, TaskExit::NoneLeft).unwrap(),
        "all transfer partition tasks exited unexpectedly"
    );
    assert_eq!(
        message(ExecutionMode::Restore, TaskKind::Background, TaskExit::NoneLeft).unwrap(),
        "background task disappeared"
    );
    assert_eq!(
        message(ExecutionMode::Run, TaskKind::Background, TaskExit::NoneLeft).unwrap(),
        "all background tasks exited unexpectedly"
    );
}
