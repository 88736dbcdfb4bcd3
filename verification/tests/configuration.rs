use fransson::config::{
    default_max_in_flight_per_partition, find_source, require_nonblank, source_consumer_group_id,
    validate_config, validate_optional_nonblank, validate_properties, validate_sasl, AppConfig,
    CloneConfig, DestinationKafkaConfig, DestinationTopicConfig, RestoreConfig, SaslConfig,
    SourceKafkaConfig, StaticTopicConfig, StreamConfig,
};
use fransson::failure::Failure;
use fransson::text_map::TextMap;
use fransson::topics::{
    parse_source_topic_ref, resolve_config_path, resolve_topics, SourceTopicRef, StaticTopicKind,
    TransferKind,
};
use fransson::transfers::{
    build_transfer_map, collect_clone_topics_by_source, collect_transfer_topics_by_source,
    initial_offset, StartOffset,
};

fn source() -> SourceKafkaConfig {
    SourceKafkaConfig {
        bootstrap_servers: "localhost:9092".to_owned(),
        client_id: None,
        group_id: "primary-test".to_owned(),
        max_in_flight_per_partition: 64,
        security_protocol: None,
        sasl: None,
        properties: TextMap::new(),
    }
}

fn destination() -> DestinationKafkaConfig {
    DestinationKafkaConfig {
        bootstrap_servers: "localhost:9093".to_owned(),
        client_id: None,
        security_protocol: None,
        sasl: None,
        properties: TextMap::new(),
    }
}

fn topic(name: &str) -> DestinationTopicConfig {
    DestinationTopicConfig {
        name: name.to_owned(),
        force: false,
        replication_factor: None,
        config: TextMap::new(),
        manage: None,
        empty: None,
        clone: None,
        stream: None,
        restore: None,
    }
}

fn set_mode(topic: &mut DestinationTopicConfig, mode: &str) {
    match mode {
        "manage" => topic.manage = Some(StaticTopicConfig { partitions: 1 }),
        "empty" => topic.empty = Some(StaticTopicConfig { partitions: 1 }),
        "clone" => {
            topic.clone = Some(CloneConfig {
                source: "primary:source".to_owned(),
            })
        }
        "stream" => {
            topic.stream = Some(StreamConfig {
                source: "primary:source".to_owned(),
            })
        }
        "restore" => {
            topic.restore = Some(RestoreConfig {
                archive: "dump.zst".to_owned(),
            })
        }
        _ => unreachable!(),
    }
}

fn config(topics: Vec<DestinationTopicConfig>) -> AppConfig {
    let mut sources = TextMap::new();
    sources.insert("primary".to_owned(), source());
    AppConfig {
        state_file: Some(".state/test.json".to_owned()),
        sources,
        destination: Some(destination()),
        topics,
    }
}

fn config_with_modes(modes: &[&str]) -> AppConfig {
    let mut topic = topic("destination");
    for mode in modes {
        set_mode(&mut topic, mode);
    }
    config(vec![topic])
}

fn message<T>(result: Result<T, Failure>) -> String {
    match result {
        Ok(_) => panic!("unexpected success"),
        Err(failure) => failure.message,
    }
}

#[test]
fn topic_modes_are_required_and_mutually_exclusive() {
    let modes = ["manage", "empty", "clone", "stream", "restore"];
    for (index, first) in modes.iter().enumerate() {
        for second in &modes[index + 1..] {
            let config = config_with_modes(&[first, second]);
            let error = message(resolve_topics(&config, Some("")));
            assert!(error.contains("must configure exactly one"));
        }
    }

    let config = config_with_modes(&[]);
    assert!(message(resolve_topics(&config, Some(""))).contains("must configure exactly one"));
    assert_eq!(
        message(resolve_topics(&config, Some(""))),
        "destination topic destination must configure exactly one of manage, empty, clone, stream, and restore"
    );
}

#[test]
fn stream_is_active_only_for_run() {
    let config = config_with_modes(&["stream"]);
    let topics = resolve_topics(&config, Some("")).unwrap();
    let run_topics = collect_transfer_topics_by_source(&topics);
    let restore_topics = collect_clone_topics_by_source(&topics);

    assert_eq!(run_topics.get("primary").unwrap().len(), 1);
    assert_eq!(
        run_topics.get("primary").unwrap()[0].kind,
        TransferKind::Stream
    );
    assert!(restore_topics.is_empty());
}

#[test]
fn clone_defaults_to_beginning_and_stream_to_end() {
    let config = config_with_modes(&["stream"]);
    let topics = resolve_topics(&config, Some("")).unwrap();
    let stream = topics[0].transfer.as_ref().unwrap();
    assert_eq!(initial_offset(stream, None), StartOffset::End);
    assert_eq!(initial_offset(stream, Some(42)), StartOffset::End);

    let config = config_with_modes(&["clone"]);
    let topics = resolve_topics(&config, Some("")).unwrap();
    let clone = topics[0].transfer.as_ref().unwrap();
    assert_eq!(initial_offset(clone, None), StartOffset::Beginning);
    assert_eq!(initial_offset(clone, Some(42)), StartOffset::At(42));
}

#[test]
fn source_uses_explicit_group_id() {
    let config = SourceKafkaConfig {
        bootstrap_servers: "localhost:9092".to_owned(),
        client_id: None,
        group_id: "authorized-group".to_owned(),
        max_in_flight_per_partition: 64,
        security_protocol: None,
        sasl: None,
        properties: TextMap::new(),
    };
    assert_eq!(source_consumer_group_id(&config), "authorized-group");
    assert_eq!(default_max_in_flight_per_partition(), 64);
}

#[test]
fn manage_and_empty_own_their_partition_count() {
    for (mode, kind) in [
        ("manage", StaticTopicKind::Manage),
        ("empty", StaticTopicKind::Empty),
    ] {
        let mut wanted = topic("destination");
        let partitions = Some(StaticTopicConfig { partitions: 3 });
        if mode == "manage" {
            wanted.manage = partitions;
        } else {
            wanted.empty = partitions;
        }
        let valid = config(vec![wanted]);
        validate_config(&valid).unwrap();
        let topics = resolve_topics(&valid, Some("")).unwrap();
        let static_topic = topics[0].static_topic.as_ref().unwrap();
        assert_eq!(static_topic.partitions, 3);
        assert_eq!(static_topic.kind, kind);
        assert!(topics[0].transfer.is_none());
        assert!(topics[0].restore.is_none());

        let mut wanted = topic("destination");
        let partitions = Some(StaticTopicConfig { partitions: 0 });
        if mode == "manage" {
            wanted.manage = partitions;
        } else {
            wanted.empty = partitions;
        }
        let invalid = config(vec![wanted]);
        assert!(message(validate_config(&invalid))
            .contains(&format!("{mode}.partitions must be greater than zero")));
    }
}

#[test]
fn raw_properties_cannot_override_fransson_fields() {
    let mut primary = source();
    primary.group_id = "group".to_owned();
    primary
        .properties
        .insert("group.id".to_owned(), "another-group".to_owned());
    let mut sources = TextMap::new();
    sources.insert("primary".to_owned(), primary);
    let config = AppConfig {
        state_file: None,
        sources,
        destination: None,
        topics: Vec::new(),
    };
    assert!(message(validate_config(&config)).contains("property group.id is owned by fransson"));
    assert_eq!(
        message(validate_config(&config)),
        "source primary property group.id is owned by fransson and cannot be configured"
    );

    let mut target = destination();
    target.bootstrap_servers = "localhost:9092".to_owned();
    target
        .properties
        .insert("enable.idempotence".to_owned(), "false".to_owned());
    let config = AppConfig {
        state_file: None,
        sources: TextMap::new(),
        destination: Some(target),
        topics: Vec::new(),
    };
    assert!(message(validate_config(&config))
        .contains("property enable.idempotence is owned by fransson"));
}

#[test]
fn clone_checkpoints_own_their_offset_reset() {
    let mut primary = source();
    primary
        .properties
        .insert("auto.offset.reset".to_owned(), "latest".to_owned());
    let mut sources = TextMap::new();
    sources.insert("primary".to_owned(), primary);
    let config = AppConfig {
        state_file: None,
        sources,
        destination: None,
        topics: Vec::new(),
    };
    assert!(message(validate_config(&config))
        .contains("property auto.offset.reset is owned by fransson"));
}

#[test]
fn validation_reports_the_first_fault() {
    let mut wrong = config(vec![topic(" ")]);
    wrong.state_file = Some(String::new());
    assert_eq!(
        message(validate_config(&wrong)),
        "state_file must not be empty"
    );
    wrong.state_file = None;
    assert_eq!(
        message(validate_config(&wrong)),
        "destination topic name must not be blank"
    );
    wrong.destination = Some(DestinationKafkaConfig {
        bootstrap_servers: "\u{3000}\t".to_owned(),
        client_id: None,
        security_protocol: None,
        sasl: None,
        properties: TextMap::new(),
    });
    assert_eq!(
        message(validate_config(&wrong)),
        "destination bootstrap_servers must not be blank"
    );
    let mut second = source();
    second.max_in_flight_per_partition = 0;
    wrong.sources.insert("zeta".to_owned(), second);
    assert_eq!(
        message(validate_config(&wrong)),
        "source zeta max_in_flight_per_partition must be greater than zero"
    );
    let mut first = source();
    first.group_id = "  ".to_owned();
    wrong.sources.insert("alpha".to_owned(), first);
    assert_eq!(
        message(validate_config(&wrong)),
        "source alpha group_id must not be blank"
    );
    wrong.sources.insert(" ".to_owned(), source());
    assert_eq!(
        message(validate_config(&wrong)),
        "source name must not be blank"
    );
}

#[test]
fn source_fields_are_checked_in_order() {
    let check = |change: fn(&mut SourceKafkaConfig)| {
        let mut primary = source();
        change(&mut primary);
        let mut sources = TextMap::new();
        sources.insert("s".to_owned(), primary);
        message(validate_config(&AppConfig {
            state_file: None,
            sources,
            destination: None,
            topics: Vec::new(),
        }))
    };
    assert_eq!(
        check(|s| s.bootstrap_servers = String::new()),
        "source s bootstrap_servers must not be blank"
    );
    assert_eq!(
        check(|s| s.client_id = Some(" ".to_owned())),
        "source s client_id must not be blank"
    );
    assert_eq!(
        check(|s| s.security_protocol = Some(String::new())),
        "source s security_protocol must not be blank"
    );
    assert_eq!(
        check(|s| {
            s.sasl = Some(SaslConfig {
                mechanism: "PLAIN".to_owned(),
                username: "user".to_owned(),
                password_env: String::new(),
            })
        }),
        "source s sasl.password_env must not be blank"
    );
    assert_eq!(
        check(|s| {
            s.properties.insert(" ".to_owned(), "x".to_owned());
        }),
        "source s property name must not be blank"
    );
}

#[test]
fn topic_fields_are_checked() {
    let check = |change: fn(&mut DestinationTopicConfig)| {
        let mut wanted = topic("t");
        change(&mut wanted);
        message(validate_config(&config(vec![wanted])))
    };
    assert_eq!(
        check(|t| t.replication_factor = Some(0)),
        "destination topic t replication_factor must be greater than zero"
    );
    assert_eq!(
        check(|t| {
            t.config
                .insert("message.timestamp.type".to_owned(), "x".to_owned());
        }),
        "destination topic t config property message.timestamp.type is owned by fransson and cannot be configured"
    );
    assert_eq!(
        check(|t| {
            t.restore = Some(RestoreConfig {
                archive: String::new(),
            })
        }),
        "destination topic t restore.archive must not be empty"
    );
}

#[test]
fn single_checks_accept_good_values() {
    assert!(require_nonblank("x", "field").is_ok());
    assert_eq!(
        message(require_nonblank(" ", "field")),
        "field must not be blank"
    );
    assert!(validate_optional_nonblank(&None, "field").is_ok());
    assert_eq!(
        message(validate_optional_nonblank(&Some(String::new()), "field")),
        "field must not be blank"
    );
    assert!(validate_sasl(&None, "scope").is_ok());
    let sasl = Some(SaslConfig {
        mechanism: " ".to_owned(),
        username: String::new(),
        password_env: String::new(),
    });
    assert_eq!(
        message(validate_sasl(&sasl, "scope")),
        "scope sasl.mechanism must not be blank"
    );
    let mut properties = TextMap::new();
    properties.insert("a".to_owned(), "1".to_owned());
    assert!(validate_properties(&properties, &["b"], "scope").is_ok());
    assert_eq!(
        message(validate_properties(&properties, &["b", "a"], "scope")),
        "scope property a is owned by fransson and cannot be configured"
    );
}

#[test]
fn references_are_split_at_the_first_colon() {
    let reference = parse_source_topic_ref("primary:orders:eu").unwrap();
    assert_eq!(reference.instance, "primary");
    assert_eq!(reference.topic, "orders:eu");
    assert_eq!(reference.display(), "primary:orders:eu");
    assert_eq!(
        message(parse_source_topic_ref("primary")),
        "expected format <source>:<topic>, got primary"
    );
    assert_eq!(
        message(parse_source_topic_ref(":topic")),
        "expected non-empty <source>:<topic>, got :topic"
    );
    assert_eq!(
        message(parse_source_topic_ref("source:")),
        "expected non-empty <source>:<topic>, got source:"
    );
    let copy: SourceTopicRef = reference.clone();
    assert_eq!(copy.display(), "primary:orders:eu");
}

#[test]
fn paths_are_relative_to_the_configuration() {
    assert_eq!(resolve_config_path(Some(""), "a.zst"), "a.zst");
    assert_eq!(resolve_config_path(Some("dir"), "a.zst"), "dir/a.zst");
    assert_eq!(resolve_config_path(Some("dir/"), "a.zst"), "dir/a.zst");
    assert_eq!(resolve_config_path(Some("/"), "a.zst"), "/a.zst");
    assert_eq!(resolve_config_path(Some("dir"), "/a.zst"), "/a.zst");
    assert_eq!(resolve_config_path(None, "a.zst"), "./a.zst");
    let config = config_with_modes(&["restore"]);
    let topics = resolve_topics(&config, Some("/etc/fransson")).unwrap();
    assert_eq!(
        topics[0].restore.as_ref().unwrap().archive,
        "/etc/fransson/dump.zst"
    );
}

#[test]
fn definitions_are_checked() {
    let mut first = topic("a");
    set_mode(&mut first, "clone");
    let mut second = topic("a");
    set_mode(&mut second, "manage");
    assert_eq!(
        message(resolve_topics(&config(vec![first, second]), None)),
        "duplicate destination topic definition for a"
    );

    let mut first = topic("a");
    set_mode(&mut first, "clone");
    let mut second = topic("b");
    set_mode(&mut second, "stream");
    assert_eq!(
        message(resolve_topics(&config(vec![first, second]), None)),
        "source topic primary:source cannot feed both destination topics a and b"
    );

    let mut wrong = topic("a");
    wrong.clone = Some(CloneConfig {
        source: "other:source".to_owned(),
    });
    assert_eq!(
        message(resolve_topics(&config(vec![wrong]), None)),
        "clone references unknown source other"
    );

    let mut wrong = topic("a");
    wrong.stream = Some(StreamConfig {
        source: "nothing".to_owned(),
    });
    match resolve_topics(&config(vec![wrong]), None) {
        Ok(_) => panic!("unexpected success"),
        Err(failure) => {
            assert_eq!(failure.message, "invalid stream source reference nothing");
            assert_eq!(
                failure.cause.as_deref(),
                Some("expected format <source>:<topic>, got nothing")
            );
        }
    }
}

#[test]
fn transfers_are_grouped_and_mapped() {
    let mut first = topic("a");
    first.clone = Some(CloneConfig {
        source: "primary:one".to_owned(),
    });
    let mut second = topic("b");
    second.stream = Some(StreamConfig {
        source: "primary:two".to_owned(),
    });
    let mut third = topic("c");
    set_mode(&mut third, "manage");
    let topics = resolve_topics(&config(vec![first, second, third]), None).unwrap();
    let all = collect_transfer_topics_by_source(&topics);
    assert_eq!(all.len(), 1);
    let plans = all.get("primary").unwrap();
    assert_eq!(plans.len(), 2);
    assert_eq!(plans[0].destination_topic, "a");
    assert_eq!(plans[1].destination_topic, "b");
    let clones = collect_clone_topics_by_source(&topics);
    assert_eq!(clones.get("primary").unwrap().len(), 1);
    let map = build_transfer_map(plans);
    assert_eq!(map.len(), 2);
    assert_eq!(map.get("two").unwrap().destination_topic, "b");
    assert!(map.get("three").is_none());
}

#[test]
fn sources_are_found_by_name() {
    let config = config(Vec::new());
    assert_eq!(
        find_source(&config.sources, "primary").unwrap().group_id,
        "primary-test"
    );
    assert_eq!(
        message(find_source(&config.sources, "other")),
        "missing source configuration for other"
    );
}

#[test]
fn text_maps_keep_their_keys_in_order() {
    let mut map: TextMap<i32> = TextMap::new();
    assert!(map.is_empty());
    assert_eq!(map.insert("b".to_owned(), 2), None);
    assert_eq!(map.insert("a".to_owned(), 1), None);
    assert_eq!(map.insert("é".to_owned(), 4), None);
    assert_eq!(map.insert("ba".to_owned(), 3), None);
    assert_eq!(map.insert("a".to_owned(), 10), Some(1));
    let keys: Vec<&str> = (0..map.len()).map(|i| map.key_at(i)).collect();
    assert_eq!(keys, vec!["a", "b", "ba", "é"]);
    let values: Vec<i32> = (0..map.len()).map(|i| *map.value_at(i)).collect();
    assert_eq!(values, vec![10, 2, 3, 4]);
    assert!(map.contains_key("ba"));
    assert_eq!(map.remove("ba"), Some(3));
    assert_eq!(map.remove("ba"), None);
    assert!(!map.contains_key("ba"));
    let copy = map.clone();
    assert_eq!(copy.get("é"), Some(&4));
    assert_eq!(copy.get("ba"), None);
}
