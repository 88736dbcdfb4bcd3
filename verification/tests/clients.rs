use fransson::client_config::{
    admin_config, apply_security_config, destination_metadata_config, dump_consumer_config,
    producer_config, source_consumer_config, stream_producer_config,
};
use fransson::config::{DestinationKafkaConfig, SaslConfig, SourceKafkaConfig};
use fransson::failure::Failure;
use fransson::kafka_consumer_groups::{
    check_delete_request, check_list_request, delete_offsets, list_offsets, offsets_of_topic,
    ConsumerGroupOffset, GroupReply, GroupResult, GroupSlot, PartitionResult,
};
use fransson::kafka_identity::{
    check_identity_request, cluster_id, topic_id, DescriptionSlot, IdentityReply, TopicDescription,
    TopicUuid,
};
use fransson::text_map::TextMap;
use rdkafka::config::ClientConfig;

fn source() -> SourceKafkaConfig {
    let mut properties = TextMap::new();
    properties.insert("fetch.wait.max.ms".to_owned(), "50".to_owned());
    SourceKafkaConfig {
        bootstrap_servers: "source:9092".to_owned(),
        client_id: Some("client".to_owned()),
        group_id: "group".to_owned(),
        max_in_flight_per_partition: 64,
        security_protocol: Some("SASL_SSL".to_owned()),
        sasl: Some(SaslConfig {
            mechanism: "PLAIN".to_owned(),
            username: "user".to_owned(),
            password_env: "PASSWORD".to_owned(),
        }),
        properties,
    }
}

fn destination() -> DestinationKafkaConfig {
    let mut properties = TextMap::new();
    properties.insert("linger.ms".to_owned(), "5".to_owned());
    DestinationKafkaConfig {
        bootstrap_servers: "destination:9092".to_owned(),
        client_id: None,
        security_protocol: None,
        sasl: None,
        properties,
    }
}

fn text<T>(result: Result<T, Failure>) -> String {
    match result {
        Ok(_) => panic!("unexpected success"),
        Err(failure) => failure.message,
    }
}

#[test]
fn source_consumers_have_their_settings() {
    let client = source_consumer_config(&source(), "secret", false);
    assert_eq!(client.get("bootstrap.servers"), Some("source:9092"));
    assert_eq!(client.get("enable.auto.commit"), Some("false"));
    assert_eq!(client.get("enable.auto.offset.store"), Some("false"));
    assert_eq!(client.get("group.id"), Some("group"));
    assert_eq!(client.get("client.id"), Some("client"));
    assert_eq!(client.get("security.protocol"), Some("SASL_SSL"));
    assert_eq!(client.get("sasl.mechanism"), Some("PLAIN"));
    assert_eq!(client.get("sasl.username"), Some("user"));
    assert_eq!(client.get("sasl.password"), Some("secret"));
    assert_eq!(client.get("fetch.wait.max.ms"), Some("50"));
    assert_eq!(client.get("auto.offset.reset"), Some("error"));
    assert_eq!(client.get("enable.partition.eof"), None);
    let client = source_consumer_config(&source(), "secret", true);
    assert_eq!(client.get("enable.partition.eof"), Some("true"));
}

#[test]
fn dump_consumers_have_their_settings() {
    let mut config = source();
    config
        .properties
        .insert("enable.partition.eof".to_owned(), "false".to_owned());
    let client = dump_consumer_config(&config, "secret");
    assert_eq!(client.get("enable.partition.eof"), Some("true"));
    assert_eq!(client.get("enable.auto.commit"), Some("false"));
    assert_eq!(client.get("enable.auto.offset.store"), Some("false"));
    assert_eq!(client.get("auto.offset.reset"), Some("error"));
    assert_eq!(client.get("group.id"), Some("group"));
}

#[test]
fn destination_clients_have_their_settings() {
    let client = destination_metadata_config(&destination(), "");
    assert_eq!(
        client.get("group.id"),
        Some("fransson-destination-metadata")
    );
    assert_eq!(client.get("enable.auto.commit"), Some("false"));
    assert_eq!(client.get("linger.ms"), Some("5"));
    let client = admin_config(&destination(), "");
    assert_eq!(client.get("bootstrap.servers"), Some("destination:9092"));
    assert_eq!(client.get("group.id"), None);
    let client = producer_config(&destination(), "");
    assert_eq!(client.get("acks"), Some("all"));
    assert_eq!(client.get("enable.idempotence"), Some("true"));
    assert_eq!(client.get("compression.type"), Some("lz4"));
    assert_eq!(client.get("message.timeout.ms"), None);
}

#[test]
fn stream_producers_wait_through_outages() {
    let mut config = destination();
    config
        .properties
        .insert("acks".to_owned(), "0".to_owned());
    config
        .properties
        .insert("compression.type".to_owned(), "none".to_owned());
    let client = stream_producer_config(&config, "");
    assert_eq!(client.get("acks"), Some("all"));
    assert_eq!(client.get("enable.idempotence"), Some("true"));
    assert_eq!(client.get("message.send.max.retries"), Some("2147483647"));
    assert_eq!(client.get("message.timeout.ms"), Some("0"));
    assert_eq!(
        client.get("max.in.flight.requests.per.connection"),
        Some("5")
    );
    assert_eq!(client.get("compression.type"), Some("none"));
}

#[test]
fn security_is_optional() {
    let mut client = ClientConfig::new();
    apply_security_config(&mut client, &None, &None, "unused");
    assert_eq!(client.get("security.protocol"), None);
    assert_eq!(client.get("sasl.password"), None);
}

fn partition(topic: &str, partition: i32, offset: i64) -> PartitionResult {
    PartitionResult {
        topic: topic.to_owned(),
        partition,
        offset,
        error: None,
    }
}

fn reply(partitions: Vec<PartitionResult>) -> GroupReply {
    GroupReply::Results {
        count: 1,
        first: GroupSlot::Group(GroupResult {
            name: "group".to_owned(),
            error: None,
            partitions,
        }),
    }
}

fn offset(topic: &str, partition: i32) -> ConsumerGroupOffset {
    ConsumerGroupOffset {
        topic: topic.to_owned(),
        partition,
    }
}

#[test]
fn committed_offsets_are_listed() {
    let listed = list_offsets(
        &reply(vec![
            partition("a", 0, 5),
            partition("a", 1, -1001),
            partition("b", 2, 0),
        ]),
        "group",
    )
    .unwrap();
    assert_eq!(listed, vec![offset("a", 0), offset("b", 2)]);
    assert_eq!(
        list_offsets(&reply(Vec::new()), "group").unwrap(),
        Vec::new()
    );
}

#[test]
fn only_the_offsets_of_a_topic_are_picked() {
    let offsets = vec![offset("a", 0), offset("b", 0), offset("a", 1)];
    assert_eq!(
        offsets_of_topic(&offsets, "a"),
        vec![offset("a", 0), offset("a", 1)]
    );
    assert!(offsets_of_topic(&offsets, "c").is_empty());
}

#[test]
fn list_replies_are_checked() {
    assert_eq!(
        text(list_offsets(&GroupReply::TimedOut, "group")),
        "timed out listing offsets for consumer group group"
    );
    assert_eq!(
        text(list_offsets(
            &GroupReply::Failed("denied".to_owned()),
            "group"
        )),
        "list consumer group offsets request failed: denied"
    );
    assert_eq!(
        text(list_offsets(&GroupReply::NoResult, "group")),
        "broker returned no consumer group offset result"
    );
    assert_eq!(
        text(list_offsets(
            &GroupReply::Results {
                count: 0,
                first: GroupSlot::NoList
            },
            "group"
        )),
        "broker returned 0 consumer group offset results instead of one"
    );
    assert_eq!(
        text(list_offsets(
            &GroupReply::Results {
                count: 1,
                first: GroupSlot::Vacant
            },
            "group"
        )),
        "broker returned an empty consumer group result"
    );
    assert_eq!(
        text(list_offsets(&reply(Vec::new()), "other")),
        "broker returned consumer group group instead of other"
    );
    let refused = GroupReply::Results {
        count: 1,
        first: GroupSlot::Group(GroupResult {
            name: "group".to_owned(),
            error: Some("not authorized".to_owned()),
            partitions: Vec::new(),
        }),
    };
    assert_eq!(
        text(list_offsets(&refused, "group")),
        "consumer group group request failed: not authorized"
    );
    let mut broken = partition("a", 3, 1);
    broken.error = Some("Unstable".to_owned());
    assert_eq!(
        text(list_offsets(&reply(vec![broken]), "group")),
        "failed to list offset for a partition 3: Unstable"
    );
}

#[test]
fn delete_replies_are_checked() {
    assert!(delete_offsets(&reply(vec![partition("a", 0, -1)]), "group").is_ok());
    assert_eq!(
        text(delete_offsets(&GroupReply::TimedOut, "group")),
        "timed out deleting offsets for consumer group group"
    );
    assert_eq!(
        text(delete_offsets(&GroupReply::Failed("x".to_owned()), "group")),
        "delete consumer group offsets request failed: x"
    );
    assert_eq!(
        text(delete_offsets(&GroupReply::NoResult, "group")),
        "broker returned no consumer offset deletion result"
    );
    assert_eq!(
        text(delete_offsets(
            &GroupReply::Results {
                count: 2,
                first: GroupSlot::Vacant
            },
            "group"
        )),
        "broker returned 2 consumer offset deletion results instead of one"
    );
    let mut busy = partition("a", 3, 1);
    busy.error = Some("GroupSubscribedToTopic".to_owned());
    assert_eq!(
        text(delete_offsets(&reply(vec![busy]), "group")),
        "failed to delete offset for a partition 3: GroupSubscribedToTopic"
    );
}

#[test]
fn group_requests_are_checked() {
    assert!(check_list_request("group").is_ok());
    let failure = check_list_request("gro\0up").unwrap_err();
    assert_eq!(failure.message, "consumer group contains a NUL byte");
    assert_eq!(
        failure.cause.as_deref(),
        Some("nul byte found in provided data at position: 3")
    );
    assert_eq!(check_delete_request("gro\0up", &[]).unwrap(), None);
    assert_eq!(
        check_delete_request("group", &[offset("a", 0), offset("b", 0)]).unwrap(),
        Some(2)
    );
    assert_eq!(
        text(check_delete_request("gro\0up", &[offset("a", 0)])),
        "consumer group contains a NUL byte"
    );
    assert_eq!(
        text(check_delete_request("group", &[offset("a\0", 0)])),
        "topic contains a NUL byte"
    );
}

fn described(error: Option<&str>, uuid: Option<(i64, i64, &str)>) -> IdentityReply {
    IdentityReply::Results {
        count: 1,
        first: DescriptionSlot::Topic(TopicDescription {
            error: error.map(|error| error.to_owned()),
            uuid: uuid.map(|(most, least, encoded)| TopicUuid {
                most_significant_bits: most,
                least_significant_bits: least,
                encoded: encoded.to_owned(),
            }),
        }),
    }
}

#[test]
fn identities_are_read_from_replies() {
    assert_eq!(
        topic_id(described(None, Some((0, 7, "uuid")))).unwrap(),
        "uuid"
    );
    assert_eq!(
        text(topic_id(described(None, Some((0, 0, "uuid"))))),
        "broker returned no topic UUID; Fransson requires Kafka 2.8 or newer"
    );
    assert_eq!(
        text(topic_id(described(None, None))),
        "broker returned no topic UUID; Fransson requires Kafka 2.8 or newer"
    );
    assert_eq!(
        text(topic_id(described(None, Some((1, 0, ""))))),
        "broker returned an empty topic UUID"
    );
    assert_eq!(
        text(topic_id(described(Some("unknown"), None))),
        "failed to describe topic identity: unknown"
    );
    assert_eq!(
        text(topic_id(IdentityReply::TimedOut)),
        "timed out describing topic identity"
    );
    assert_eq!(
        text(topic_id(IdentityReply::Failed("x".to_owned()))),
        "topic identity request failed: x"
    );
    assert_eq!(
        text(topic_id(IdentityReply::NoResult)),
        "broker returned no topic identity result"
    );
    assert_eq!(
        text(topic_id(IdentityReply::Results {
            count: 3,
            first: DescriptionSlot::NoList
        })),
        "broker returned 3 topic descriptions instead of one"
    );
    assert_eq!(
        text(topic_id(IdentityReply::Results {
            count: 1,
            first: DescriptionSlot::Vacant
        })),
        "broker returned an empty topic description"
    );
    assert_eq!(cluster_id(Some("c".to_owned())).unwrap(), "c");
    assert_eq!(
        text(cluster_id(None)),
        "broker did not return a cluster ID"
    );
    assert!(check_identity_request("topic").is_ok());
    assert_eq!(
        text(check_identity_request("to\0pic")),
        "topic name contains a NUL byte"
    );
}
