use fransson::metadata::{Metadata, MetadataPartition, MetadataTopic};
use fransson::state::{
    clear_stream_topics, flush_due, validate_state_sources, OffsetState, STATE_FORMAT_VERSION,
};
use fransson::status::{render_status_board, status_key, StatusBoard};
use fransson::text_map::TextMap;
use fransson::topics::{ManagedTopic, SourceTopicRef, TransferKind, TransferPlan};

fn source() -> SourceTopicRef {
    SourceTopicRef {
        instance: "primary".to_owned(),
        topic: "source".to_owned(),
    }
}

fn plan(destination: &str, kind: TransferKind) -> TransferPlan {
    TransferPlan {
        destination_topic: destination.to_owned(),
        source: source(),
        kind,
    }
}

fn managed(name: &str, kind: TransferKind) -> ManagedTopic {
    ManagedTopic {
        name: name.to_owned(),
        force: false,
        replication_factor: None,
        config: TextMap::new(),
        static_topic: None,
        transfer: Some(plan(name, kind)),
        restore: None,
    }
}

fn metadata(partitions: &[i32]) -> Metadata {
    Metadata {
        topics: vec![MetadataTopic {
            name: "source".to_owned(),
            error: None,
            partitions: partitions
                .iter()
                .map(|id| MetadataPartition {
                    id: *id,
                    replicas: 1,
                })
                .collect(),
        }],
    }
}

#[test]
fn clearing_a_destination_removes_old_state() {
    let mut state = OffsetState::default();
    let source = SourceTopicRef {
        instance: "primary".to_owned(),
        topic: "source".to_owned(),
    };
    state.update_next_offset("destination", &source, 0, 42);
    state.mark_restored("destination", "fingerprint".to_owned());

    assert!(state.clear_topic("destination"));
    assert!(state.next_offset("destination", 0).is_none());
    assert!(!state.restore_matches("destination", "fingerprint"));
    assert!(!state.clear_topic("destination"));
}

#[test]
fn state_schema_is_strict_and_binds_clone_source() {
    let mut state = OffsetState::default();
    let source = SourceTopicRef {
        instance: "primary".to_owned(),
        topic: "source".to_owned(),
    };
    state.update_next_offset("destination", &source, 0, 42);
    let loaded = OffsetState::load(Some(state), "state.json").unwrap();
    assert_eq!(loaded.format_version, STATE_FORMAT_VERSION);
    assert_eq!(
        loaded.clones.get("destination").unwrap().source,
        "primary:source"
    );
}

#[test]
fn only_the_current_state_format_is_loaded() {
    let empty = OffsetState::load(None, "state.json").unwrap();
    assert_eq!(empty.format_version, 1);
    assert!(empty.clones.is_empty());
    assert!(empty.restores.is_empty());

    let mut other = OffsetState::default();
    other.format_version = 7;
    let failure = OffsetState::load(Some(other), "dir/state.json").unwrap_err();
    assert_eq!(
        failure.message,
        "unsupported state format version 7 in dir/state.json"
    );
}

#[test]
fn offsets_are_recorded_by_topic_and_partition() {
    let mut state = OffsetState::default();
    state.update_next_offset("a", &source(), 0, 5);
    state.update_next_offset("a", &source(), 1, 6);
    state.update_next_offset("b", &source(), 0, 7);
    state.update_next_offset("a", &source(), 0, 8);
    assert_eq!(state.next_offset("a", 0), Some(8));
    assert_eq!(state.next_offset("a", 1), Some(6));
    assert_eq!(state.next_offset("a", 2), None);
    assert_eq!(state.next_offset("b", 0), Some(7));
    assert_eq!(state.next_offset("c", 0), None);

    state.begin_clone("a", &source());
    assert_eq!(state.next_offset("a", 0), None);
    assert_eq!(state.clones.get("a").unwrap().source, "primary:source");
    assert_eq!(state.next_offset("b", 0), Some(7));
}

#[test]
fn restores_are_matched_by_fingerprint_and_format() {
    let mut state = OffsetState::default();
    state.mark_restored("a", "one".to_owned());
    assert!(state.restore_matches("a", "one"));
    assert!(!state.restore_matches("a", "two"));
    assert!(!state.restore_matches("b", "one"));
    let mut marker = state.restores.remove("a").unwrap();
    marker.archive_format_version = 1;
    state.restores.insert("a".to_owned(), marker);
    assert!(!state.restore_matches("a", "one"));
}

#[test]
fn clones_are_bound_to_their_source() {
    let mut state = OffsetState::default();
    state.update_next_offset(
        "destination",
        &SourceTopicRef {
            instance: "other".to_owned(),
            topic: "source".to_owned(),
        },
        0,
        1,
    );
    let clones = vec![managed("destination", TransferKind::Clone)];
    let failure = validate_state_sources(&state, &clones).unwrap_err();
    assert_eq!(
        failure.message,
        "state for destination topic destination belongs to source other:source but config uses primary:source"
    );
    let streams = vec![managed("destination", TransferKind::Stream)];
    assert!(validate_state_sources(&state, &streams).is_ok());
    state.begin_clone("destination", &source());
    assert!(validate_state_sources(&state, &clones).is_ok());
}

#[test]
fn streams_keep_no_state() {
    let mut state = OffsetState::default();
    state.update_next_offset("stream", &source(), 0, 1);
    state.mark_restored("stream", "x".to_owned());
    state.update_next_offset("clone", &source(), 0, 2);
    let topics = vec![
        managed("clone", TransferKind::Clone),
        managed("stream", TransferKind::Stream),
    ];
    assert!(clear_stream_topics(&mut state, &topics));
    assert_eq!(state.next_offset("stream", 0), None);
    assert!(!state.restore_matches("stream", "x"));
    assert_eq!(state.next_offset("clone", 0), Some(2));
    assert!(!clear_stream_topics(&mut state, &topics));
}

#[test]
fn state_is_written_when_changed_or_forced() {
    assert!(flush_due(true, false));
    assert!(flush_due(false, true));
    assert!(!flush_due(false, false));
}

#[test]
fn the_board_shows_each_partition() {
    let mut board = StatusBoard::new();
    let mut state = OffsetState::default();
    state.update_next_offset("orders", &source(), 0, 17);
    board
        .initialize_status_lines(
            &metadata(&[1, 0]),
            &[plan("orders", TransferKind::Clone)],
            &state,
        )
        .unwrap();
    let head = "\x1b[1mfransson status\x1b[0m\n\x1b[2mDESTINATION TOPIC - PARTITION                             NEXT OFFSET  STATUS\x1b[0m\n";
    let first = format!(
        "{:<56} {:>12}  {}{:<8}{}\n",
        "orders - 0", "17", "\x1b[32m", "ok", "\x1b[0m"
    );
    let second = format!(
        "{:<56} {:>12}  {}{:<8}{}\n",
        "orders - 1", "-", "\x1b[33m", "starting", "\x1b[0m"
    );
    assert_eq!(
        render_status_board(&board),
        format!("{head}{first}{second}")
    );

    board.set_partition_error("orders", 1, "broken".to_owned());
    board.set_partition_error("other", 1, "unseen".to_owned());
    let failed = format!(
        "{:<56} {:>12}  {}{:<8}{}  \x1b[2mbroken\x1b[0m\n",
        "orders - 1", "-", "\x1b[31m", "error", "\x1b[0m"
    );
    assert_eq!(
        render_status_board(&board),
        format!("{head}{first}{failed}")
    );

    board.update_partition_offset("orders", 1, -5);
    let healed = format!(
        "{:<56} {:>12}  {}{:<8}{}\n",
        "orders - 1", "-5", "\x1b[32m", "ok", "\x1b[0m"
    );
    assert_eq!(
        render_status_board(&board),
        format!("{head}{first}{healed}")
    );
}

#[test]
fn lines_that_are_there_already_stay() {
    let mut board = StatusBoard::new();
    let state = OffsetState::default();
    let plans = [plan("orders", TransferKind::Stream)];
    board
        .initialize_status_lines(&metadata(&[0]), &plans, &state)
        .unwrap();
    board.update_partition_offset("orders", 0, 3);
    board
        .initialize_status_lines(&metadata(&[0, 10]), &plans, &state)
        .unwrap();
    let text = render_status_board(&board);
    assert!(text.contains("orders - 0"));
    assert!(text.contains("orders - 10"));
    assert!(text.contains("           3  "));
    assert_eq!(text.lines().count(), 4);

    let missing = Metadata { topics: Vec::new() };
    assert_eq!(
        board
            .initialize_status_lines(&missing, &plans, &state)
            .unwrap_err()
            .message,
        "missing metadata for source topic source"
    );
}

#[test]
fn streams_start_without_an_offset_on_the_board() {
    let mut board = StatusBoard::new();
    let mut state = OffsetState::default();
    state.update_next_offset("orders", &source(), 0, 17);
    board
        .initialize_status_lines(
            &metadata(&[0]),
            &[plan("orders", TransferKind::Stream)],
            &state,
        )
        .unwrap();
    assert!(render_status_board(&board).contains("starting"));
}

#[test]
fn source_errors_spare_other_errors() {
    let mut board = StatusBoard::new();
    let state = OffsetState::default();
    board
        .initialize_status_lines(
            &metadata(&[0, 1, 2]),
            &[plan("orders", TransferKind::Clone)],
            &state,
        )
        .unwrap();
    board.set_partition_error("orders", 0, "error on primary".to_owned());
    board.set_partition_error("orders", 1, "error elsewhere".to_owned());
    board.set_source_error("primary", "down");
    let text = render_status_board(&board);
    assert!(!text.contains("error on primary"));
    assert!(text.contains("error elsewhere"));
    assert_eq!(text.matches("down").count(), 2);
}

#[test]
fn source_errors_spare_other_sources() {
    let mut board = StatusBoard::new();
    let state = OffsetState::default();
    let mut other = plan("other", TransferKind::Clone);
    other.source.instance = "secondary".to_owned();
    board
        .initialize_status_lines(
            &metadata(&[0]),
            &[plan("orders", TransferKind::Clone), other],
            &state,
        )
        .unwrap();
    board.set_source_error("secondary", "down");
    assert_eq!(render_status_board(&board).matches("down").count(), 1);
    board.set_partition_error("orders", 0, "error like secondary".to_owned());
    board.set_source_error("secondary", "away from secondary");
    board.set_source_error("secondary", "away");
    let text = render_status_board(&board);
    assert!(text.contains("error like secondary"));
    assert_eq!(text.matches("away").count(), 0);
    assert_eq!(text.matches("down").count(), 1);
}

#[test]
fn status_keys_are_distinct() {
    assert_eq!(status_key("orders", 3), "orders:3");
    assert_eq!(status_key("orders", -1), "orders:-1");
    assert_ne!(status_key("orders:1", 2), status_key("orders", 12));
}
