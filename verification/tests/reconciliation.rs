use fransson::archive::ArchiveSummary;
use fransson::assignment::{count_source_partitions, desired_partition_count};
use fransson::failure::Failure;
use fransson::metadata::{check_metadata, Metadata, MetadataPartition, MetadataTopic};
use fransson::reconcile::{
    described_entries, drift_reason, inspect_topic, plan_reconcile_action, reconcile_steps,
    recreation_authorized, topic_config_mismatch, topic_mismatch_reason, topic_shape_mismatch,
    Described, ReconcileAction, ReconcilePlan, ReconcileStep, Reconciliation,
};
use fransson::registry::{ClusterState, Fence, LiveTopic, Registry, SourceIdentity};
use fransson::state::OffsetState;
use fransson::text_map::TextMap;
use fransson::topic_admin::{
    await_topic, check_created, check_deleted, live_partitions, new_topic_settings, AdminOutcome,
    Wait,
};
use fransson::topics::{
    ManagedTopic, RestorePlan, SourceTopicRef, StaticTopicKind, StaticTopicPlan, TransferKind,
    TransferPlan,
};
use fransson::transfers::{record_watermarks, Watermarks};

fn bare(name: &str) -> ManagedTopic {
    ManagedTopic {
        name: name.to_owned(),
        force: false,
        replication_factor: None,
        config: TextMap::new(),
        static_topic: None,
        transfer: None,
        restore: None,
    }
}

fn source() -> SourceTopicRef {
    SourceTopicRef {
        instance: "primary".to_owned(),
        topic: "source".to_owned(),
    }
}

fn transferred(name: &str, kind: TransferKind) -> ManagedTopic {
    let mut topic = bare(name);
    topic.transfer = Some(TransferPlan {
        destination_topic: name.to_owned(),
        source: source(),
        kind,
    });
    topic
}

fn fixed(name: &str, partitions: i32, kind: StaticTopicKind) -> ManagedTopic {
    let mut topic = bare(name);
    topic.static_topic = Some(StaticTopicPlan { partitions, kind });
    topic
}

fn restored(name: &str) -> ManagedTopic {
    let mut topic = bare(name);
    topic.restore = Some(RestorePlan {
        archive: "dump.zst".to_owned(),
    });
    topic
}

fn live(name: &str, replicas: &[usize]) -> MetadataTopic {
    MetadataTopic {
        name: name.to_owned(),
        error: None,
        partitions: replicas
            .iter()
            .enumerate()
            .map(|(id, replicas)| MetadataPartition {
                id: id as i32,
                replicas: *replicas,
            })
            .collect(),
    }
}

fn cluster(topics: Vec<MetadataTopic>) -> Metadata {
    Metadata { topics }
}

fn entries(settings: &[(&str, Option<&str>)]) -> TextMap<Option<String>> {
    let mut map = TextMap::new();
    for (key, value) in settings {
        map.insert((*key).to_owned(), value.map(|value| value.to_owned()));
    }
    map
}

fn message<T>(result: Result<T, Failure>) -> String {
    match result {
        Ok(_) => panic!("unexpected success"),
        Err(failure) => failure.message,
    }
}

fn no_bounds() -> TextMap<Watermarks> {
    TextMap::new()
}

#[test]
fn reconciliation_creates_missing_topics_and_recreates_drift() {
    assert!(matches!(
        plan_reconcile_action(false, Some("stale state".to_owned())),
        ReconcileAction::Create
    ));
    assert!(matches!(
        plan_reconcile_action(true, Some("config drift".to_owned())),
        ReconcileAction::Recreate(reason) if reason == "config drift"
    ));
    assert!(matches!(
        plan_reconcile_action(true, None),
        ReconcileAction::Keep
    ));
    assert!(matches!(
        plan_reconcile_action(
            true,
            Some("configured empty topic must be recreated".to_owned())
        ),
        ReconcileAction::Recreate(reason)
            if reason == "configured empty topic must be recreated"
    ));
    assert!(!recreation_authorized(false, false));
    assert!(recreation_authorized(true, false));
    assert!(recreation_authorized(false, true));
}

#[test]
fn shapes_are_compared() {
    let mut topic = fixed("t", 2, StaticTopicKind::Manage);
    assert_eq!(
        topic_shape_mismatch(&topic, 2, &live("t", &[1, 1, 1])).as_deref(),
        Some("partition count is 3 but expected 2")
    );
    assert_eq!(topic_shape_mismatch(&topic, 2, &live("t", &[1, 3])), None);
    topic.replication_factor = Some(3);
    assert_eq!(
        topic_shape_mismatch(&topic, 2, &live("t", &[3, 2])).as_deref(),
        Some("partition 1 has replication factor 2 but expected 3")
    );
    assert_eq!(topic_shape_mismatch(&topic, 2, &live("t", &[3, 3])), None);
}

#[test]
fn settings_are_compared() {
    let mut topic = bare("t");
    assert_eq!(
        topic_config_mismatch(&topic, &entries(&[])).as_deref(),
        Some("config message.timestamp.type is None but expected \"CreateTime\"")
    );
    assert_eq!(
        topic_config_mismatch(
            &topic,
            &entries(&[("message.timestamp.type", Some("LogAppendTime"))])
        )
        .as_deref(),
        Some("config message.timestamp.type is Some(\"LogAppendTime\") but expected \"CreateTime\"")
    );
    let good = entries(&[
        ("message.timestamp.type", Some("CreateTime")),
        ("cleanup.policy", Some("compact")),
        ("retention.ms", None),
    ]);
    assert_eq!(topic_config_mismatch(&topic, &good), None);
    topic
        .config
        .insert("cleanup.policy".to_owned(), "compact".to_owned());
    assert_eq!(topic_config_mismatch(&topic, &good), None);
    topic
        .config
        .insert("retention.ms".to_owned(), "-1\n".to_owned());
    assert_eq!(
        topic_config_mismatch(&topic, &good).as_deref(),
        Some("config retention.ms is None but expected \"-1\\n\"")
    );
    assert_eq!(
        topic_mismatch_reason(&topic, 1, &live("t", &[]), &good).as_deref(),
        Some("partition count is 0 but expected 1")
    );
    assert!(topic_mismatch_reason(&topic, 0, &live("t", &[]), &good)
        .unwrap()
        .starts_with("config retention.ms"));
}

#[test]
fn settings_must_come_back() {
    let found = described_entries(Described::Entries(entries(&[("a", Some("b"))])), "t").unwrap();
    assert_eq!(found.len(), 1);
    let refused = described_entries(Described::Refused("denied".to_owned()), "t").unwrap_err();
    assert_eq!(
        refused.message,
        "failed to compare configuration for destination topic t"
    );
    assert_eq!(
        refused.cause.as_deref(),
        Some("describe_configs returned error for topic t: denied")
    );
    let nothing = described_entries(Described::Nothing, "t").unwrap_err();
    assert_eq!(
        nothing.cause.as_deref(),
        Some("missing describe_configs result for topic t")
    );
}

#[test]
fn partition_counts_have_their_sources() {
    let mut counts: TextMap<i32> = TextMap::new();
    let clone = transferred("d", TransferKind::Clone);
    assert_eq!(
        message(desired_partition_count(&clone, &counts, None)),
        "missing source partition count for transfer primary:source to destination topic d"
    );
    counts.insert("primary:source".to_owned(), 7);
    assert_eq!(desired_partition_count(&clone, &counts, None).unwrap(), 7);
    assert_eq!(
        desired_partition_count(&restored("d"), &counts, Some(4)).unwrap(),
        4
    );
    assert_eq!(
        message(desired_partition_count(
            &restored("d"),
            &counts,
            Some(0x8000_0000)
        )),
        "archive partition count does not fit Kafka"
    );
    assert_eq!(
        desired_partition_count(&fixed("d", 3, StaticTopicKind::Empty), &counts, None).unwrap(),
        3
    );
    assert_eq!(
        message(desired_partition_count(&bare("d"), &counts, None)),
        "destination topic d has no partition source"
    );
}

#[test]
fn source_partitions_are_counted() {
    let plans = vec![transferred("d", TransferKind::Clone).transfer.unwrap()];
    let counts = count_source_partitions(
        TextMap::new(),
        "primary",
        &plans,
        &cluster(vec![live("source", &[1, 1])]),
    )
    .unwrap();
    assert_eq!(counts.get("primary:source"), Some(&2));
    assert_eq!(
        message(count_source_partitions(
            TextMap::new(),
            "primary",
            &plans,
            &cluster(Vec::new())
        )),
        "source topic source not found in metadata for source primary"
    );
    let mut broken = live("source", &[1]);
    broken.error = Some("LeaderNotAvailable".to_owned());
    assert_eq!(
        message(count_source_partitions(
            TextMap::new(),
            "primary",
            &plans,
            &cluster(vec![broken])
        )),
        "source topic source metadata error on source primary: LeaderNotAvailable"
    );
}

#[test]
fn source_topics_must_be_in_the_metadata() {
    let plans = vec![transferred("d", TransferKind::Clone).transfer.unwrap()];
    assert!(check_metadata(&cluster(vec![live("source", &[1])]), &plans).is_ok());
    assert_eq!(
        message(check_metadata(&cluster(Vec::new()), &plans)),
        "source topic source not found in cluster metadata"
    );
    let mut broken = live("source", &[1]);
    broken.error = Some("Unknown".to_owned());
    assert_eq!(
        message(check_metadata(&cluster(vec![broken]), &plans)),
        "source topic source metadata error: Unknown"
    );
}

#[test]
fn topics_are_inspected() {
    let counts: TextMap<i32> = TextMap::new();
    let manage = fixed("t", 2, StaticTopicKind::Manage);
    let missing = inspect_topic(&manage, &cluster(Vec::new()), &counts, None).unwrap();
    assert!(!missing.existing);
    assert_eq!(missing.desired_partitions, 2);
    assert!(!missing.compare_settings);

    let same = inspect_topic(&manage, &cluster(vec![live("t", &[1, 1])]), &counts, None).unwrap();
    assert!(same.existing);
    assert!(same.compare_settings);
    assert_eq!(same.mismatch, None);

    let other = inspect_topic(&manage, &cluster(vec![live("t", &[1])]), &counts, None).unwrap();
    assert!(!other.compare_settings);
    assert_eq!(
        other.mismatch.as_deref(),
        Some("partition count is 1 but expected 2")
    );

    let empty = inspect_topic(
        &fixed("t", 2, StaticTopicKind::Empty),
        &cluster(vec![live("t", &[1, 1])]),
        &counts,
        None,
    )
    .unwrap();
    assert_eq!(
        empty.mismatch.as_deref(),
        Some("configured empty topic must be recreated")
    );
    assert!(!empty.compare_settings);

    let mut broken = live("t", &[1, 1]);
    broken.error = Some("Fenced".to_owned());
    assert_eq!(
        message(inspect_topic(
            &manage,
            &cluster(vec![broken]),
            &counts,
            None
        )),
        "destination topic t metadata error: Fenced"
    );
}

#[test]
fn archives_must_match_their_topic() {
    let mut counts: TextMap<i32> = TextMap::new();
    counts.insert("primary:source".to_owned(), 3);
    let mut both = transferred("t", TransferKind::Clone);
    both.restore = Some(RestorePlan {
        archive: "dump.zst".to_owned(),
    });
    let summary = ArchiveSummary {
        partitions: 2,
        fingerprint: "f".to_owned(),
    };
    assert_eq!(
        message(inspect_topic(
            &both,
            &cluster(Vec::new()),
            &counts,
            Some(&summary)
        )),
        "restore archive dump.zst has 2 partitions but destination topic t configures 3"
    );
    let inspection = inspect_topic(
        &restored("t"),
        &cluster(Vec::new()),
        &counts,
        Some(&summary),
    )
    .unwrap();
    assert_eq!(inspection.desired_partitions, 2);
}

#[test]
fn drift_has_its_reasons() {
    let mut state = OffsetState::default();
    let manage = fixed("t", 1, StaticTopicKind::Manage);
    assert_eq!(
        drift_reason(&state, &manage, None, None, &no_bounds(), 1, None),
        None
    );
    assert_eq!(
        drift_reason(
            &state,
            &manage,
            Some("shape".to_owned()),
            None,
            &no_bounds(),
            1,
            Some("identity".to_owned())
        )
        .as_deref(),
        Some("shape")
    );
    assert_eq!(
        drift_reason(&state, &restored("t"), None, Some("f"), &no_bounds(), 1, None).as_deref(),
        Some("configured archive has not completed successfully")
    );
    state.mark_restored("t", "f".to_owned());
    assert_eq!(
        drift_reason(&state, &restored("t"), None, Some("f"), &no_bounds(), 1, None),
        None
    );
    assert!(drift_reason(&state, &restored("t"), None, Some("g"), &no_bounds(), 1, None).is_some());
    assert_eq!(
        drift_reason(
            &state,
            &restored("t"),
            None,
            Some("f"),
            &no_bounds(),
            1,
            Some("identity".to_owned())
        )
        .as_deref(),
        Some("identity")
    );
}

#[test]
fn clones_without_matching_state_are_drifted() {
    let mut state = OffsetState::default();
    let clone = transferred("t", TransferKind::Clone);
    assert_eq!(
        drift_reason(&state, &clone, None, None, &no_bounds(), 2, None).as_deref(),
        Some("no progress is saved for clone source primary:source")
    );
    state.begin_clone(
        "t",
        &SourceTopicRef {
            instance: "old".to_owned(),
            topic: "source".to_owned(),
        },
    );
    assert_eq!(
        drift_reason(&state, &clone, None, None, &no_bounds(), 2, None).as_deref(),
        Some("saved clone source is old:source but config uses primary:source")
    );
    state.begin_clone("t", &source());
    assert_eq!(
        drift_reason(&state, &clone, None, None, &no_bounds(), 2, None),
        None
    );
    let stream = transferred("t", TransferKind::Stream);
    assert_eq!(
        drift_reason(&OffsetState::default(), &stream, None, None, &no_bounds(), 2, None),
        None
    );
}

#[test]
fn checkpoints_stay_between_the_watermarks() {
    let mut state = OffsetState::default();
    state.update_next_offset("t", &source(), 0, 10);
    state.update_next_offset("t", &source(), 1, 20);
    let clone = transferred("t", TransferKind::Clone);
    let bounds = |low: i64, high: i64| {
        let mut bounds = TextMap::new();
        record_watermarks(
            &mut bounds,
            "primary",
            "source",
            &[
                Watermarks {
                    partition: 0,
                    low: 0,
                    high: 10,
                },
                Watermarks {
                    partition: 1,
                    low,
                    high,
                },
            ],
        );
        bounds
    };
    assert_eq!(
        drift_reason(&state, &clone, None, None, &bounds(20, 20), 2, None),
        None
    );
    assert_eq!(
        drift_reason(&state, &clone, None, None, &bounds(21, 30), 2, None).as_deref(),
        Some("saved offset 20 of partition 1 is outside source watermarks 21 to 30")
    );
    assert_eq!(
        drift_reason(&state, &clone, None, None, &bounds(0, 19), 2, None).as_deref(),
        Some("saved offset 20 of partition 1 is outside source watermarks 0 to 19")
    );
    assert_eq!(
        drift_reason(&state, &clone, None, None, &bounds(0, 19), 1, None),
        None
    );
}

#[test]
fn nothing_is_done_before_every_recreation_is_authorized() {
    let mut reconciliation = Reconciliation::new();
    reconciliation.add_topic(
        0,
        &bare("a"),
        true,
        1,
        None,
        Some("first".to_owned()),
        false,
    );
    reconciliation.add_topic(1, &bare("b"), false, 1, None, None, false);
    reconciliation.add_topic(
        2,
        &bare("c"),
        true,
        1,
        None,
        Some("second".to_owned()),
        false,
    );
    assert_eq!(
        message(reconciliation.authorize()),
        "destination topic recreation requires --force or topic force: true:\n- a: first\n- c: second"
    );

    let mut forced = bare("a");
    forced.force = true;
    let mut reconciliation = Reconciliation::new();
    reconciliation.add_topic(
        0,
        &forced,
        true,
        1,
        None,
        Some("first".to_owned()),
        false,
    );
    reconciliation.add_topic(
        1,
        &bare("b"),
        true,
        2,
        Some("f".to_owned()),
        Some("x".to_owned()),
        true,
    );
    reconciliation.add_topic(2, &bare("c"), true, 1, None, None, false);
    let plans = reconciliation.authorize().unwrap();
    assert_eq!(plans.len(), 3);
    assert_eq!(plans[1].topic_index, 1);
    assert_eq!(plans[1].desired_partitions, 2);
    assert_eq!(plans[1].restore_fingerprint.as_deref(), Some("f"));
    assert!(matches!(&plans[0].action, ReconcileAction::Recreate(reason) if reason == "first"));
    assert!(matches!(plans[2].action, ReconcileAction::Keep));
}

#[test]
fn plans_are_carried_out_in_steps() {
    let plan = |action: ReconcileAction, fingerprint: Option<&str>| ReconcilePlan {
        topic_index: 0,
        desired_partitions: 1,
        restore_fingerprint: fingerprint.map(|text| text.to_owned()),
        action,
        authorized: true,
    };
    assert!(reconcile_steps(&bare("t"), &plan(ReconcileAction::Keep, None)).is_empty());
    assert_eq!(
        reconcile_steps(&bare("t"), &plan(ReconcileAction::Create, None)),
        vec![
            ReconcileStep::ClearState,
            ReconcileStep::CreateTopic,
            ReconcileStep::AwaitTopic,
            ReconcileStep::DeleteGroupOffsets,
        ]
    );
    assert_eq!(
        reconcile_steps(
            &restored("t"),
            &plan(ReconcileAction::Recreate("x".to_owned()), Some("f"))
        ),
        vec![
            ReconcileStep::ClearState,
            ReconcileStep::DeleteTopic,
            ReconcileStep::CreateTopic,
            ReconcileStep::AwaitTopic,
            ReconcileStep::DeleteGroupOffsets,
            ReconcileStep::RecordIdentity,
            ReconcileStep::RestoreArchive,
            ReconcileStep::CheckIdentity,
            ReconcileStep::MarkRestored,
        ]
    );
    let clone = transferred("t", TransferKind::Clone);
    assert_eq!(
        reconcile_steps(&clone, &plan(ReconcileAction::Create, None))[4..],
        [ReconcileStep::RecordIdentity, ReconcileStep::BeginClone]
    );
}

#[test]
fn topics_are_created_with_their_settings() {
    let mut topic = bare("t");
    topic
        .config
        .insert("retention.ms".to_owned(), "1".to_owned());
    topic
        .config
        .insert("cleanup.policy".to_owned(), "compact".to_owned());
    let settings = new_topic_settings(&topic, 4);
    assert_eq!(settings.name, "t");
    assert_eq!(settings.partitions, 4);
    assert_eq!(settings.replication, -1);
    assert_eq!(
        settings.config,
        vec![
            ("message.timestamp.type".to_owned(), "CreateTime".to_owned()),
            ("cleanup.policy".to_owned(), "compact".to_owned()),
            ("retention.ms".to_owned(), "1".to_owned()),
        ]
    );
    topic.replication_factor = Some(3);
    assert_eq!(new_topic_settings(&topic, 4).replication, 3);
}

#[test]
fn admin_replies_are_checked() {
    assert!(check_created(AdminOutcome::Done, "t").is_ok());
    assert_eq!(
        message(check_created(
            AdminOutcome::Refused {
                name: "t".to_owned(),
                code: "TopicAlreadyExists".to_owned()
            },
            "t"
        )),
        "failed to create destination topic t: TopicAlreadyExists"
    );
    assert_eq!(
        message(check_created(AdminOutcome::Nothing, "t")),
        "Kafka returned no create result for destination topic t"
    );
    assert!(check_deleted(AdminOutcome::Done, "t").is_ok());
    assert_eq!(
        message(check_deleted(
            AdminOutcome::Refused {
                name: "t".to_owned(),
                code: "x".to_owned()
            },
            "t"
        )),
        "failed to delete destination topic t: x"
    );
    assert_eq!(
        message(check_deleted(AdminOutcome::Nothing, "t")),
        "Kafka returned no delete result for destination topic t"
    );
}

#[test]
fn topics_are_awaited() {
    let present = cluster(vec![live("t", &[1, 1])]);
    let absent = cluster(Vec::new());
    assert_eq!(live_partitions(&present, "t"), Some(2));
    assert_eq!(live_partitions(&absent, "t"), None);
    let mut broken = live("t", &[1]);
    broken.error = Some("x".to_owned());
    assert_eq!(
        live_partitions(&cluster(vec![broken, live("t", &[1, 1, 1])]), "t"),
        Some(3)
    );
    assert!(matches!(
        await_topic(&present, "t", Some(2), false),
        Wait::Ready
    ));
    assert!(matches!(
        await_topic(&present, "t", Some(3), false),
        Wait::Again
    ));
    assert!(matches!(await_topic(&absent, "t", None, true), Wait::Ready));
    match await_topic(&present, "t", Some(3), true) {
        Wait::GiveUp(failure) => assert_eq!(
            failure.message,
            "timed out waiting for destination topic t to have 3 partitions; observed Some(2)"
        ),
        _ => panic!("expected to give up"),
    }
    match await_topic(&absent, "t", Some(3), true) {
        Wait::GiveUp(failure) => assert!(failure.message.ends_with("observed None")),
        _ => panic!("expected to give up"),
    }
    match await_topic(&present, "t", None, true) {
        Wait::GiveUp(failure) => assert_eq!(
            failure.message,
            "timed out waiting for destination topic t to be deleted"
        ),
        _ => panic!("expected to give up"),
    }
}

fn fence(topic_id: &str, source: Option<(&str, &str)>) -> Fence {
    Fence {
        topic_id: topic_id.to_owned(),
        source: source.map(|(cluster_id, topic_id)| SourceIdentity {
            cluster_id: cluster_id.to_owned(),
            topic_id: topic_id.to_owned(),
        }),
    }
}

#[test]
fn records_are_fenced_by_identities() {
    let mut cluster = ClusterState::new();
    let clone = transferred("t", TransferKind::Clone);
    let live = fence("one", Some(("c", "s")));
    assert_eq!(
        cluster.identity_drift(&clone, &live).as_deref(),
        Some("no topic identity is saved")
    );
    cluster.record_identity("t", fence("one", Some(("c", "s"))));
    assert_eq!(cluster.identity_drift(&clone, &live), None);
    assert_eq!(
        cluster
            .identity_drift(&clone, &fence("two", Some(("c", "s"))))
            .as_deref(),
        Some("saved topic UUID is one but the topic has two")
    );
    for other in [Some(("d", "s")), Some(("c", "u")), None] {
        assert_eq!(
            cluster.identity_drift(&clone, &fence("one", other)).as_deref(),
            Some("saved source identity is not that of the source topic")
        );
    }
    assert!(cluster
        .identity_drift(&restored("r"), &fence("one", None))
        .is_some());
    assert_eq!(
        cluster.identity_drift(&fixed("m", 1, StaticTopicKind::Manage), &live),
        None
    );
    assert_eq!(
        cluster.identity_drift(&transferred("s", TransferKind::Stream), &live),
        None
    );
}

#[test]
fn replacements_are_not_checkpointed() {
    let mut cluster = ClusterState::new();
    cluster.record_identity("t", fence("one", None));
    let live = |topic_id: &str| LiveTopic {
        topic: "t".to_owned(),
        identity: fence(topic_id, None),
    };
    assert!(cluster.revalidate(&[]).is_ok());
    assert!(cluster.revalidate(&[live("one")]).is_ok());
    assert_eq!(
        message(cluster.revalidate(&[live("one"), live("two")])),
        "destination topic t is not the one that is recorded: saved topic UUID is one but the topic has two"
    );
}

#[test]
fn records_stay_in_their_cluster() {
    let mut registry = Registry::load(None, "state.json").unwrap();
    let mut first = registry.take_cluster("first");
    first.ledger.update_next_offset("t", &source(), 0, 5);
    first.record_identity("t", fence("one", None));
    registry.put_cluster("first".to_owned(), first);
    let mut registry = Registry::load(Some(registry), "state.json").unwrap();
    let second = registry.take_cluster("second");
    assert_eq!(second.ledger.next_offset("t", 0), None);
    assert!(second.fences.is_empty());
    let first = registry.take_cluster("first");
    assert_eq!(first.ledger.next_offset("t", 0), Some(5));
    assert_eq!(first.fences.get("t").unwrap().topic_id, "one");
    assert!(registry.clusters.is_empty());
}

#[test]
fn records_of_other_formats_are_refused() {
    let mut registry = Registry::load(None, "state.json").unwrap();
    let mut cluster = ClusterState::new();
    cluster.ledger.format_version = 2;
    registry.put_cluster("a".to_owned(), ClusterState::new());
    registry.put_cluster("b".to_owned(), cluster);
    assert_eq!(
        message(Registry::load(Some(registry), "state.json")),
        "unsupported state format version 2 in state.json"
    );
}

#[test]
fn configured_topics_can_be_reset() {
    let fill = || {
        let mut cluster = ClusterState::new();
        for name in ["a", "b", "c"] {
            cluster.ledger.update_next_offset(name, &source(), 0, 1);
            cluster.ledger.mark_restored(name, "f".to_owned());
            cluster.record_identity(name, fence("id", None));
        }
        cluster
    };
    let topics = [bare("a"), bare("b")];
    let recorded = |cluster: &ClusterState, name: &str| {
        cluster.ledger.next_offset(name, 0).is_some()
            || cluster.ledger.restore_matches(name, "f")
            || cluster.fences.contains_key(name)
    };
    let mut cluster = fill();
    cluster.reset_topics(&topics, Some("a")).unwrap();
    assert!(!recorded(&cluster, "a"));
    assert!(recorded(&cluster, "b"));
    let mut cluster = fill();
    cluster.reset_topics(&topics, None).unwrap();
    assert!(!recorded(&cluster, "a"));
    assert!(!recorded(&cluster, "b"));
    assert!(recorded(&cluster, "c"));
    assert_eq!(
        message(cluster.reset_topics(&topics, Some("c"))),
        "destination topic c is not configured"
    );
    assert!(recorded(&cluster, "c"));
    assert!(cluster.clear_topic("c"));
    assert!(!cluster.clear_topic("c"));
}
