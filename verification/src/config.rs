//! The configuration: what it holds, and what makes it valid.

use crate::failure;
use crate::failure::{fail, Failure, FailureView};
use crate::text;
use crate::text_map::TextMap;
use vstd::prelude::*;

verus! {

/// A whole configuration. Paths are kept as text.
#[derive(Debug)]
pub struct AppConfig {
    pub state_file: Option<String>,
    pub sources: TextMap<SourceKafkaConfig>,
    pub destination: Option<DestinationKafkaConfig>,
    pub topics: Vec<DestinationTopicConfig>,
}

/// A Kafka cluster that records are read from.
#[derive(Debug)]
pub struct SourceKafkaConfig {
    pub bootstrap_servers: String,
    pub client_id: Option<String>,
    pub group_id: String,
    pub max_in_flight_per_partition: usize,
    pub security_protocol: Option<String>,
    pub sasl: Option<SaslConfig>,
    pub properties: TextMap<String>,
}

/// The Kafka cluster that records are written to.
#[derive(Debug)]
pub struct DestinationKafkaConfig {
    pub bootstrap_servers: String,
    pub client_id: Option<String>,
    pub security_protocol: Option<String>,
    pub sasl: Option<SaslConfig>,
    pub properties: TextMap<String>,
}

/// SASL credentials; the password is in the named environment variable.
#[derive(Debug)]
pub struct SaslConfig {
    pub mechanism: String,
    pub username: String,
    pub password_env: String,
}

/// A destination topic, in exactly one of five modes.
#[derive(Debug)]
pub struct DestinationTopicConfig {
    pub name: String,
    pub force: bool,
    pub replication_factor: Option<i32>,
    pub config: TextMap<String>,
    pub manage: Option<StaticTopicConfig>,
    pub empty: Option<StaticTopicConfig>,
    pub clone: Option<CloneConfig>,
    pub stream: Option<StreamConfig>,
    pub restore: Option<RestoreConfig>,
}

/// Copies a source topic from its beginning.
#[derive(Debug)]
pub struct CloneConfig {
    pub source: String,
}

/// Forwards a source topic's new records.
#[derive(Debug)]
pub struct StreamConfig {
    pub source: String,
}

/// Fills a topic from an archive.
#[derive(Debug)]
pub struct RestoreConfig {
    pub archive: String,
}

/// A topic that no data is transferred into.
#[derive(Debug)]
pub struct StaticTopicConfig {
    pub partitions: i32,
}

/// How many records of a partition may be in flight unless configured.
pub fn default_max_in_flight_per_partition() -> (r: usize)
    ensures
        r == 64,
{
    64
}

/// The consumer group of a source is the configured one.
pub fn source_consumer_group_id(config: &SourceKafkaConfig) -> (r: &str)
    ensures
        r@ == config.group_id@,
{
    config.group_id.as_str()
}

/// The source settings that properties cannot override.
pub open spec fn source_reserved() -> Seq<Seq<char>> {
    seq![
        "bootstrap.servers"@,
        "client.id"@,
        "group.id"@,
        "security.protocol"@,
        "sasl.mechanism"@,
        "sasl.username"@,
        "sasl.password"@,
        "enable.auto.commit"@,
        "enable.auto.offset.store"@,
        "enable.partition.eof"@,
        "auto.offset.reset"@,
    ]
}

/// The destination settings that properties cannot override.
pub open spec fn destination_reserved() -> Seq<Seq<char>> {
    seq![
        "bootstrap.servers"@,
        "client.id"@,
        "group.id"@,
        "security.protocol"@,
        "sasl.mechanism"@,
        "sasl.username"@,
        "sasl.password"@,
        "enable.auto.commit"@,
        "enable.auto.offset.store"@,
        "acks"@,
        "enable.idempotence"@,
        "message.send.max.retries"@,
        "retries"@,
        "message.timeout.ms"@,
        "delivery.timeout.ms"@,
        "max.in.flight.requests.per.connection"@,
    ]
}

/// The topic settings that a topic's configuration cannot override.
pub open spec fn topic_reserved() -> Seq<Seq<char>> {
    seq!["message.timestamp.type"@]
}

/// The texts of some string slices.
pub open spec fn texts(slices: Seq<&str>) -> Seq<Seq<char>> {
    slices.map_values(|slice: &str| slice@)
}

fn source_reserved_names() -> (r: Vec<&'static str>)
    ensures
        texts(r@) == source_reserved(),
{
    let r: Vec<&'static str> = vec![
        "bootstrap.servers",
        "client.id",
        "group.id",
        "security.protocol",
        "sasl.mechanism",
        "sasl.username",
        "sasl.password",
        "enable.auto.commit",
        "enable.auto.offset.store",
        "enable.partition.eof",
        "auto.offset.reset",
    ];
    assert(texts(r@) == source_reserved());
    r
}

fn destination_reserved_names() -> (r: Vec<&'static str>)
    ensures
        texts(r@) == destination_reserved(),
{
    let r: Vec<&'static str> = vec![
        "bootstrap.servers",
        "client.id",
        "group.id",
        "security.protocol",
        "sasl.mechanism",
        "sasl.username",
        "sasl.password",
        "enable.auto.commit",
        "enable.auto.offset.store",
        "acks",
        "enable.idempotence",
        "message.send.max.retries",
        "retries",
        "message.timeout.ms",
        "delivery.timeout.ms",
        "max.in.flight.requests.per.connection",
    ];
    assert(texts(r@) == destination_reserved());
    r
}

fn topic_reserved_names() -> (r: Vec<&'static str>)
    ensures
        texts(r@) == topic_reserved(),
{
    let r: Vec<&'static str> = vec!["message.timestamp.type"];
    assert(texts(r@) == topic_reserved());
    r
}

fn listed(names: &[&str], name: &str) -> (r: bool)
    ensures
        r == texts(names@).contains(name@),
{
    let mut i: usize = 0;
    while i < names.len()
        invariant
            i <= names@.len(),
            forall|j: int| 0 <= j < i ==> #[trigger] texts(names@)[j] != name@,
        decreases names@.len() - i,
    {
        if text::same(names[i], name) {
            assert(texts(names@)[i as int] == name@);
            return true;
        }
        assert(texts(names@)[i as int] == names@[i as int]@);
        i = i + 1;
    }
    false
}

/// A value that must not be blank.
pub open spec fn blank_fault(value: Seq<char>, field: Seq<char>) -> Option<FailureView> {
    if text::blank(value) {
        Some(failure::failed(field + " must not be blank"@))
    } else {
        None
    }
}

/// A value that must not be blank if it is there.
pub open spec fn optional_blank_fault(value: Option<String>, field: Seq<char>) -> Option<
    FailureView,
> {
    match value {
        Some(value) => blank_fault(value@, field),
        None => None,
    }
}

/// What is wrong with SASL credentials.
pub open spec fn sasl_fault(sasl: Option<SaslConfig>, scope: Seq<char>) -> Option<FailureView> {
    match sasl {
        Some(sasl) => failure::first(
            blank_fault(sasl.mechanism@, scope + " sasl.mechanism"@),
            failure::first(
                blank_fault(sasl.username@, scope + " sasl.username"@),
                blank_fault(sasl.password_env@, scope + " sasl.password_env"@),
            ),
        ),
        None => None,
    }
}

/// What is wrong with a property's name.
pub open spec fn property_fault(
    key: Seq<char>,
    reserved: Seq<Seq<char>>,
    scope: Seq<char>,
) -> Option<FailureView> {
    failure::first(
        blank_fault(key, scope + " property name"@),
        if reserved.contains(key) {
            Some(
                failure::failed(
                    scope + " property "@ + key
                        + " is owned by fransson and cannot be configured"@,
                ),
            )
        } else {
            None
        },
    )
}

/// The first thing wrong with properties, in the order of their names.
pub open spec fn properties_fault(
    keys: Seq<Seq<char>>,
    reserved: Seq<Seq<char>>,
    scope: Seq<char>,
) -> Option<FailureView>
    decreases keys.len(),
{
    if keys.len() == 0 {
        None
    } else {
        failure::first(
            properties_fault(keys.drop_last(), reserved, scope),
            property_fault(keys.last(), reserved, scope),
        )
    }
}

/// The first thing wrong with a source.
pub open spec fn source_fault(name: Seq<char>, source: SourceKafkaConfig) -> Option<FailureView> {
    let scope = "source "@ + name;
    failure::first(
        blank_fault(name, "source name"@),
        failure::first(
            blank_fault(source.bootstrap_servers@, scope + " bootstrap_servers"@),
            failure::first(
                blank_fault(source.group_id@, scope + " group_id"@),
                failure::first(
                    if source.max_in_flight_per_partition == 0 {
                        Some(
                            failure::failed(
                                scope
                                    + " max_in_flight_per_partition must be greater than zero"@,
                            ),
                        )
                    } else {
                        None
                    },
                    failure::first(
                        optional_blank_fault(source.client_id, scope + " client_id"@),
                        failure::first(
                            optional_blank_fault(
                                source.security_protocol,
                                scope + " security_protocol"@,
                            ),
                            failure::first(
                                sasl_fault(source.sasl, scope),
                                properties_fault(
                                    source.properties.keys(),
                                    source_reserved(),
                                    scope,
                                ),
                            ),
                        ),
                    ),
                ),
            ),
        ),
    )
}

/// The first thing wrong with the first `count` sources, in the order of their
/// names.
pub open spec fn sources_fault(sources: TextMap<SourceKafkaConfig>, count: int) -> Option<
    FailureView,
>
    decreases count,
{
    if count <= 0 {
        None
    } else {
        failure::first(
            sources_fault(sources, count - 1),
            source_fault(sources.keys()[count - 1], sources@[sources.keys()[count - 1]]),
        )
    }
}

/// The first thing wrong with the destination.
pub open spec fn destination_fault(destination: DestinationKafkaConfig) -> Option<FailureView> {
    failure::first(
        blank_fault(destination.bootstrap_servers@, "destination bootstrap_servers"@),
        failure::first(
            optional_blank_fault(destination.client_id, "destination client_id"@),
            failure::first(
                optional_blank_fault(
                    destination.security_protocol,
                    "destination security_protocol"@,
                ),
                failure::first(
                    sasl_fault(destination.sasl, "destination"@),
                    properties_fault(
                        destination.properties.keys(),
                        destination_reserved(),
                        "destination"@,
                    ),
                ),
            ),
        ),
    )
}

/// A partition count that must be positive.
pub open spec fn partitions_fault(
    name: Seq<char>,
    mode: Seq<char>,
    topic: Option<StaticTopicConfig>,
) -> Option<FailureView> {
    match topic {
        Some(topic) => if topic.partitions <= 0 {
            Some(
                failure::failed(
                    "destination topic "@ + name + " "@ + mode
                        + ".partitions must be greater than zero"@,
                ),
            )
        } else {
            None
        },
        None => None,
    }
}

/// The first thing wrong with a destination topic.
pub open spec fn topic_fault(topic: DestinationTopicConfig) -> Option<FailureView> {
    failure::first(
        blank_fault(topic.name@, "destination topic name"@),
        failure::first(
            partitions_fault(topic.name@, "manage"@, topic.manage),
            failure::first(
                partitions_fault(topic.name@, "empty"@, topic.empty),
                failure::first(
                    if topic.replication_factor is Some && topic.replication_factor->0 <= 0 {
                        Some(
                            failure::failed(
                                "destination topic "@ + topic.name@
                                    + " replication_factor must be greater than zero"@,
                            ),
                        )
                    } else {
                        None
                    },
                    failure::first(
                        properties_fault(
                            topic.config.keys(),
                            topic_reserved(),
                            "destination topic "@ + topic.name@ + " config"@,
                        ),
                        if topic.restore is Some && topic.restore->0.archive@.len() == 0 {
                            Some(
                                failure::failed(
                                    "destination topic "@ + topic.name@
                                        + " restore.archive must not be empty"@,
                                ),
                            )
                        } else {
                            None
                        },
                    ),
                ),
            ),
        ),
    )
}

/// The first thing wrong with destination topics.
pub open spec fn topics_fault(topics: Seq<DestinationTopicConfig>) -> Option<FailureView>
    decreases topics.len(),
{
    if topics.len() == 0 {
        None
    } else {
        failure::first(topics_fault(topics.drop_last()), topic_fault(topics.last()))
    }
}

/// The first thing wrong with a configuration: the state file first, then the
/// sources in the order of their names, the destination, and the topics.
pub open spec fn config_fault(config: AppConfig) -> Option<FailureView> {
    failure::first(
        if config.state_file is Some && config.state_file->0@.len() == 0 {
            Some(failure::failed("state_file must not be empty"@))
        } else {
            None
        },
        failure::first(
            sources_fault(config.sources, config.sources.keys().len() as int),
            failure::first(
                match config.destination {
                    Some(destination) => destination_fault(destination),
                    None => None,
                },
                topics_fault(config.topics@),
            ),
        ),
    )
}

/// Checks that a value is not blank.
pub fn require_nonblank(value: &str, field: &str) -> (r: Result<(), Failure>)
    ensures
        failure::tells(r, blank_fault(value@, field@)),
{
    if text::is_blank(value) {
        return Err(fail(text::join2(field, " must not be blank")));
    }
    Ok(())
}

/// Checks that a value is not blank if it is there.
pub fn validate_optional_nonblank(value: &Option<String>, field: &str) -> (r: Result<(), Failure>)
    ensures
        failure::tells(r, optional_blank_fault(*value, field@)),
{
    match value {
        Some(value) => require_nonblank(value.as_str(), field),
        None => Ok(()),
    }
}

/// Checks that SASL credentials are complete.
pub fn validate_sasl(sasl: &Option<SaslConfig>, scope: &str) -> (r: Result<(), Failure>)
    ensures
        failure::tells(r, sasl_fault(*sasl, scope@)),
{
    match sasl {
        Some(sasl) => {
            require_nonblank(
                sasl.mechanism.as_str(),
                text::join2(scope, " sasl.mechanism").as_str(),
            )?;
            require_nonblank(
                sasl.username.as_str(),
                text::join2(scope, " sasl.username").as_str(),
            )?;
            require_nonblank(
                sasl.password_env.as_str(),
                text::join2(scope, " sasl.password_env").as_str(),
            )
        },
        None => Ok(()),
    }
}

proof fn lemma_properties_fault_stays(
    keys: Seq<Seq<char>>,
    count: int,
    reserved: Seq<Seq<char>>,
    scope: Seq<char>,
)
    requires
        0 <= count <= keys.len(),
        properties_fault(keys.take(count), reserved, scope) is Some,
    ensures
        properties_fault(keys, reserved, scope) == properties_fault(
            keys.take(count),
            reserved,
            scope,
        ),
    decreases keys.len(),
{
    if count < keys.len() {
        assert(keys.drop_last().take(count) == keys.take(count));
        lemma_properties_fault_stays(keys.drop_last(), count, reserved, scope);
    } else {
        assert(keys.take(count) == keys);
    }
}

/// Checks that no property is nameless or overrides a reserved setting.
pub fn validate_properties(properties: &TextMap<String>, reserved: &[&str], scope: &str) -> (r:
    Result<(), Failure>)
    ensures
        failure::tells(r, properties_fault(properties.keys(), texts(reserved@), scope@)),
{
    let ghost keys = properties.keys();
    let ghost names = texts(reserved@);
    let mut i: usize = 0;
    while i < properties.len()
        invariant
            i <= keys.len(),
            keys == properties.keys(),
            names == texts(reserved@),
            properties_fault(keys.take(i as int), names, scope@) is None,
        decreases keys.len() - i,
    {
        let key = properties.key_at(i);
        proof {
            assert(keys.take(i + 1).drop_last() == keys.take(i as int));
            if properties_fault(keys.take(i + 1), names, scope@) is Some {
                lemma_properties_fault_stays(keys, i + 1, names, scope@);
            }
        }
        let field = text::join2(scope, " property name");
        if let Err(failure) = require_nonblank(key, field.as_str()) {
            return Err(failure);
        }
        if listed(reserved, key) {
            let mut message = text::join3(scope, " property ", key);
            message.append(" is owned by fransson and cannot be configured");
            return Err(fail(message));
        }
        i = i + 1;
    }
    assert(keys.take(i as int) == keys);
    Ok(())
}

fn validate_source(name: &str, source: &SourceKafkaConfig) -> (r: Result<(), Failure>)
    ensures
        failure::tells(r, source_fault(name@, *source)),
{
    let scope = text::join2("source ", name);
    let reserved = source_reserved_names();
    require_nonblank(name, "source name")?;
    require_nonblank(
        source.bootstrap_servers.as_str(),
        text::join2(scope.as_str(), " bootstrap_servers").as_str(),
    )?;
    require_nonblank(
        source.group_id.as_str(),
        text::join2(scope.as_str(), " group_id").as_str(),
    )?;
    if source.max_in_flight_per_partition == 0 {
        return Err(
            fail(
                text::join2(
                    scope.as_str(),
                    " max_in_flight_per_partition must be greater than zero",
                ),
            ),
        );
    }
    validate_optional_nonblank(
        &source.client_id,
        text::join2(scope.as_str(), " client_id").as_str(),
    )?;
    validate_optional_nonblank(
        &source.security_protocol,
        text::join2(scope.as_str(), " security_protocol").as_str(),
    )?;
    validate_sasl(&source.sasl, scope.as_str())?;
    validate_properties(&source.properties, reserved.as_slice(), scope.as_str())
}

fn validate_destination(destination: &DestinationKafkaConfig) -> (r: Result<(), Failure>)
    ensures
        failure::tells(r, destination_fault(*destination)),
{
    let reserved = destination_reserved_names();
    require_nonblank(destination.bootstrap_servers.as_str(), "destination bootstrap_servers")?;
    validate_optional_nonblank(&destination.client_id, "destination client_id")?;
    validate_optional_nonblank(&destination.security_protocol, "destination security_protocol")?;
    validate_sasl(&destination.sasl, "destination")?;
    validate_properties(&destination.properties, reserved.as_slice(), "destination")
}

fn validate_partitions(name: &str, mode: &str, topic: &Option<StaticTopicConfig>) -> (r: Result<
    (),
    Failure,
>)
    ensures
        failure::tells(r, partitions_fault(name@, mode@, *topic)),
{
    match topic {
        Some(topic) => if topic.partitions <= 0 {
            Err(
                fail(
                    text::join5(
                        "destination topic ",
                        name,
                        " ",
                        mode,
                        ".partitions must be greater than zero",
                    ),
                ),
            )
        } else {
            Ok(())
        },
        None => Ok(()),
    }
}

fn validate_topic(topic: &DestinationTopicConfig) -> (r: Result<(), Failure>)
    ensures
        failure::tells(r, topic_fault(*topic)),
{
    let name = topic.name.as_str();
    let reserved = topic_reserved_names();
    require_nonblank(name, "destination topic name")?;
    validate_partitions(name, "manage", &topic.manage)?;
    validate_partitions(name, "empty", &topic.empty)?;
    if let Some(value) = topic.replication_factor {
        if value <= 0 {
            return Err(
                fail(
                    text::join3(
                        "destination topic ",
                        name,
                        " replication_factor must be greater than zero",
                    ),
                ),
            );
        }
    }
    validate_properties(
        &topic.config,
        reserved.as_slice(),
        text::join3("destination topic ", name, " config").as_str(),
    )?;
    if let Some(restore) = &topic.restore {
        if restore.archive.as_str().unicode_len() == 0 {
            return Err(
                fail(
                    text::join3("destination topic ", name, " restore.archive must not be empty"),
                ),
            );
        }
    }
    Ok(())
}

proof fn lemma_sources_fault_stays(
    sources: TextMap<SourceKafkaConfig>,
    count: int,
    all: int,
)
    requires
        0 <= count <= all,
        sources_fault(sources, count) is Some,
    ensures
        sources_fault(sources, all) == sources_fault(sources, count),
    decreases all,
{
    if count < all {
        lemma_sources_fault_stays(sources, count, all - 1);
    }
}

fn validate_sources(sources: &TextMap<SourceKafkaConfig>) -> (r: Result<(), Failure>)
    ensures
        failure::tells(r, sources_fault(*sources, sources.keys().len() as int)),
{
    let mut i: usize = 0;
    while i < sources.len()
        invariant
            i <= sources.keys().len(),
            sources_fault(*sources, i as int) is None,
        decreases sources.keys().len() - i,
    {
        proof {
            if sources_fault(*sources, i + 1) is Some {
                lemma_sources_fault_stays(*sources, i + 1, sources.keys().len() as int);
            }
        }
        if let Err(failure) = validate_source(sources.key_at(i), sources.value_at(i)) {
            return Err(failure);
        }
        i = i + 1;
    }
    Ok(())
}

proof fn lemma_topics_fault_stays(topics: Seq<DestinationTopicConfig>, count: int)
    requires
        0 <= count <= topics.len(),
        topics_fault(topics.take(count)) is Some,
    ensures
        topics_fault(topics) == topics_fault(topics.take(count)),
    decreases topics.len(),
{
    if count < topics.len() {
        assert(topics.drop_last().take(count) == topics.take(count));
        lemma_topics_fault_stays(topics.drop_last(), count);
    } else {
        assert(topics.take(count) == topics);
    }
}

fn validate_topics(topics: &Vec<DestinationTopicConfig>) -> (r: Result<(), Failure>)
    ensures
        failure::tells(r, topics_fault(topics@)),
{
    let mut i: usize = 0;
    while i < topics.len()
        invariant
            i <= topics@.len(),
            topics_fault(topics@.take(i as int)) is None,
        decreases topics@.len() - i,
    {
        proof {
            assert(topics@.take(i + 1).drop_last() == topics@.take(i as int));
            if topics_fault(topics@.take(i + 1)) is Some {
                lemma_topics_fault_stays(topics@, i + 1);
            }
        }
        if let Err(failure) = validate_topic(&topics[i]) {
            return Err(failure);
        }
        i = i + 1;
    }
    assert(topics@.take(i as int) == topics@);
    Ok(())
}

/// Checks a configuration: the state file first, then the sources in the order
/// of their names, the destination, and the topics. The first thing wrong is
/// reported.
pub fn validate_config(config: &AppConfig) -> (r: Result<(), Failure>)
    ensures
        failure::tells(r, config_fault(*config)),
{
    if let Some(path) = &config.state_file {
        if path.as_str().unicode_len() == 0 {
            return Err(fail("state_file must not be empty".to_owned()));
        }
    }
    validate_sources(&config.sources)?;
    if let Some(destination) = &config.destination {
        validate_destination(destination)?;
    }
    validate_topics(&config.topics)
}

/// Every name among properties without a fault is neither blank nor reserved.
proof fn lemma_properties_clean(
    keys: Seq<Seq<char>>,
    reserved: Seq<Seq<char>>,
    scope: Seq<char>,
    i: int,
)
    requires
        properties_fault(keys, reserved, scope) is None,
        0 <= i < keys.len(),
    ensures
        !text::blank(keys[i]),
        !reserved.contains(keys[i]),
    decreases keys.len(),
{
    if i < keys.len() - 1 {
        lemma_properties_clean(keys.drop_last(), reserved, scope, i);
    }
}

proof fn lemma_sources_clean(sources: TextMap<SourceKafkaConfig>, count: int, i: int)
    requires
        sources_fault(sources, count) is None,
        0 <= i < count,
    ensures
        source_fault(sources.keys()[i], sources@[sources.keys()[i]]) is None,
    decreases count,
{
    if i < count - 1 {
        lemma_sources_clean(sources, count - 1, i);
    }
}

/// In a valid configuration no property of a source overrides a setting that
/// is reserved for sources.
pub proof fn law_source_properties_are_not_reserved(config: AppConfig, name: Seq<char>, i: int)
    requires
        config_fault(config) is None,
        config.sources@.contains_key(name),
        0 <= i < config.sources@[name].properties.keys().len(),
    ensures
        !source_reserved().contains(config.sources@[name].properties.keys()[i]),
{
    let at = config.sources.keys().index_of(name);
    assert(config.sources.keys()[at] == name);
    lemma_sources_clean(config.sources, config.sources.keys().len() as int, at);
    lemma_properties_clean(
        config.sources@[name].properties.keys(),
        source_reserved(),
        "source "@ + name,
        i,
    );
}

/// In a valid configuration no property of the destination overrides a setting
/// that is reserved for the destination.
pub proof fn law_destination_properties_are_not_reserved(config: AppConfig, i: int)
    requires
        config_fault(config) is None,
        config.destination is Some,
        0 <= i < config.destination->0.properties.keys().len(),
    ensures
        !destination_reserved().contains(config.destination->0.properties.keys()[i]),
{
    lemma_properties_clean(
        config.destination->0.properties.keys(),
        destination_reserved(),
        "destination"@,
        i,
    );
}

/// The configuration of a source.
pub fn find_source<'a>(sources: &'a TextMap<SourceKafkaConfig>, name: &str) -> (r: Result<
    &'a SourceKafkaConfig,
    Failure,
>)
    ensures
        failure::tells(
            r,
            if sources@.contains_key(name@) {
                None
            } else {
                Some(failure::failed("missing source configuration for "@ + name@))
            },
        ),
        r matches Ok(source) ==> *source == sources@[name@],
{
    match sources.get(name) {
        Some(source) => Ok(source),
        None => Err(fail(text::join2("missing source configuration for ", name))),
    }
}

/// The settings that properties cannot override are the ones that are listed, for
/// sources, for the destination and for topics.
pub proof fn law_reserved_settings(name: Seq<char>)
    ensures
        source_reserved().contains(name) <==> {
            ||| name == "bootstrap.servers"@ || name == "client.id"@ || name == "group.id"@
            ||| name == "security.protocol"@ || name == "sasl.mechanism"@
            ||| name == "sasl.username"@ || name == "sasl.password"@
            ||| name == "enable.auto.commit"@ || name == "enable.auto.offset.store"@
            ||| name == "enable.partition.eof"@ || name == "auto.offset.reset"@
        },
        destination_reserved().contains(name) <==> {
            ||| name == "bootstrap.servers"@ || name == "client.id"@ || name == "group.id"@
            ||| name == "security.protocol"@ || name == "sasl.mechanism"@
            ||| name == "sasl.username"@ || name == "sasl.password"@
            ||| name == "enable.auto.commit"@ || name == "enable.auto.offset.store"@
            ||| name == "acks"@ || name == "enable.idempotence"@
            ||| name == "message.send.max.retries"@ || name == "retries"@
            ||| name == "message.timeout.ms"@ || name == "delivery.timeout.ms"@
            ||| name == "max.in.flight.requests.per.connection"@
        },
        topic_reserved().contains(name) <==> name == "message.timestamp.type"@,
{
    let source = source_reserved();
    assert(source[0] == "bootstrap.servers"@);
    assert(source[1] == "client.id"@);
    assert(source[2] == "group.id"@);
    assert(source[3] == "security.protocol"@);
    assert(source[4] == "sasl.mechanism"@);
    assert(source[5] == "sasl.username"@);
    assert(source[6] == "sasl.password"@);
    assert(source[7] == "enable.auto.commit"@);
    assert(source[8] == "enable.auto.offset.store"@);
    assert(source[9] == "enable.partition.eof"@);
    assert(source[10] == "auto.offset.reset"@);
    let destination = destination_reserved();
    assert(destination[0] == "bootstrap.servers"@);
    assert(destination[1] == "client.id"@);
    assert(destination[2] == "group.id"@);
    assert(destination[3] == "security.protocol"@);
    assert(destination[4] == "sasl.mechanism"@);
    assert(destination[5] == "sasl.username"@);
    assert(destination[6] == "sasl.password"@);
    assert(destination[7] == "enable.auto.commit"@);
    assert(destination[8] == "enable.auto.offset.store"@);
    assert(destination[9] == "acks"@);
    assert(destination[10] == "enable.idempotence"@);
    assert(destination[11] == "message.send.max.retries"@);
    assert(destination[12] == "retries"@);
    assert(destination[13] == "message.timeout.ms"@);
    assert(destination[14] == "delivery.timeout.ms"@);
    assert(destination[15] == "max.in.flight.requests.per.connection"@);
    assert(topic_reserved()[0] == "message.timestamp.type"@);
    assert(source.len() == 11);
    assert(destination.len() == 16);
    assert(topic_reserved().len() == 1);
}

proof fn lemma_property_faults(
    keys: Seq<Seq<char>>,
    reserved: Seq<Seq<char>>,
    scope: Seq<char>,
)
    ensures
        properties_fault(keys, reserved, scope) is None <==> forall|key: Seq<char>| #[trigger]
            keys.contains(key) ==> !text::blank(key) && !reserved.contains(key),
    decreases keys.len(),
{
    if keys.len() > 0 {
        let front = keys.drop_last();
        let last = keys.last();
        lemma_property_faults(front, reserved, scope);
        assert forall|key: Seq<char>| #[trigger] keys.contains(key) == (front.contains(key) || key
            == last) by {
            if front.contains(key) {
                let i = choose|i: int| 0 <= i < front.len() && front[i] == key;
                assert(keys[i] == key);
            }
            if keys.contains(key) {
                let i = choose|i: int| 0 <= i < keys.len() && keys[i] == key;
                if i < front.len() {
                    assert(front[i] == key);
                }
            }
            if key == last {
                assert(keys[keys.len() - 1] == key);
            }
        }
        if properties_fault(keys, reserved, scope) is None {
        } else if properties_fault(front, reserved, scope) is None {
            assert(keys.contains(last));
        } else {
            let key = choose|key: Seq<char>| #[trigger]
                front.contains(key) && !(!text::blank(key) && !reserved.contains(key));
            assert(keys.contains(key));
        }
    }
}

/// A source is accepted exactly where its name, its servers and its group are not
/// blank, records may be in flight, what is optional is not blank where it is
/// there, and no property is unnamed or reserved.
pub proof fn law_sources_are_accepted(name: Seq<char>, source: SourceKafkaConfig)
    ensures
        source_fault(name, source) is None <==> {
            &&& !text::blank(name)
            &&& !text::blank(source.bootstrap_servers@)
            &&& !text::blank(source.group_id@)
            &&& source.max_in_flight_per_partition > 0
            &&& source.client_id matches Some(id) ==> !text::blank(id@)
            &&& source.security_protocol matches Some(protocol) ==> !text::blank(protocol@)
            &&& source.sasl matches Some(sasl) ==> !text::blank(sasl.mechanism@) && !text::blank(
                sasl.username@,
            ) && !text::blank(sasl.password_env@)
            &&& forall|key: Seq<char>| #[trigger]
                source.properties@.contains_key(key) ==> !text::blank(key)
                    && !source_reserved().contains(key)
        },
{
    let keys = source.properties.keys();
    lemma_property_faults(keys, source_reserved(), "source "@ + name);
    assert(forall|key: Seq<char>|
        #![trigger source.properties@.contains_key(key)]
        #![trigger keys.contains(key)]
        source.properties@.contains_key(key) <==> keys.contains(key));
}

/// A destination is accepted exactly where its servers are not blank, what is
/// optional is not blank where it is there, and no property is unnamed or
/// reserved.
pub proof fn law_destinations_are_accepted(destination: DestinationKafkaConfig)
    ensures
        destination_fault(destination) is None <==> {
            &&& !text::blank(destination.bootstrap_servers@)
            &&& destination.client_id matches Some(id) ==> !text::blank(id@)
            &&& destination.security_protocol matches Some(protocol) ==> !text::blank(protocol@)
            &&& destination.sasl matches Some(sasl) ==> !text::blank(sasl.mechanism@)
                && !text::blank(sasl.username@) && !text::blank(sasl.password_env@)
            &&& forall|key: Seq<char>| #[trigger]
                destination.properties@.contains_key(key) ==> !text::blank(key)
                    && !destination_reserved().contains(key)
        },
{
    let keys = destination.properties.keys();
    lemma_property_faults(keys, destination_reserved(), "destination"@);
    assert(forall|key: Seq<char>|
        #![trigger destination.properties@.contains_key(key)]
        #![trigger keys.contains(key)]
        destination.properties@.contains_key(key) <==> keys.contains(key));
}

/// A topic is accepted exactly where its name is not blank, its numbers are
/// positive where they are there, no setting is unnamed or reserved, and its
/// archive is named where it has one.
pub proof fn law_topics_are_accepted(topic: DestinationTopicConfig)
    ensures
        topic_fault(topic) is None <==> {
            &&& !text::blank(topic.name@)
            &&& topic.manage matches Some(manage) ==> manage.partitions > 0
            &&& topic.empty matches Some(empty) ==> empty.partitions > 0
            &&& topic.replication_factor matches Some(factor) ==> factor > 0
            &&& forall|key: Seq<char>| #[trigger]
                topic.config@.contains_key(key) ==> !text::blank(key) && !topic_reserved().contains(
                    key,
                )
            &&& topic.restore matches Some(restore) ==> restore.archive@.len() > 0
        },
{
    let keys = topic.config.keys();
    lemma_property_faults(
        keys,
        topic_reserved(),
        "destination topic "@ + topic.name@ + " config"@,
    );
    assert(forall|key: Seq<char>|
        #![trigger topic.config@.contains_key(key)]
        #![trigger keys.contains(key)]
        topic.config@.contains_key(key) <==> keys.contains(key));
}

proof fn lemma_source_faults(sources: TextMap<SourceKafkaConfig>, count: int)
    requires
        0 <= count,
    ensures
        sources_fault(sources, count) is None <==> forall|i: int|
            0 <= i < count ==> source_fault(
                #[trigger] sources.keys()[i],
                sources@[sources.keys()[i]],
            ) is None,
    decreases count,
{
    if count > 0 {
        lemma_source_faults(sources, count - 1);
        if sources_fault(sources, count) is None {
            assert forall|i: int| 0 <= i < count implies source_fault(
                #[trigger] sources.keys()[i],
                sources@[sources.keys()[i]],
            ) is None by {
                if i == count - 1 {
                }
            }
        } else if sources_fault(sources, count - 1) is None {
            assert(source_fault(
                sources.keys()[count - 1],
                sources@[sources.keys()[count - 1]],
            ) is Some);
        }
    }
}

proof fn lemma_topic_faults(topics: Seq<DestinationTopicConfig>)
    ensures
        topics_fault(topics) is None <==> forall|i: int|
            0 <= i < topics.len() ==> topic_fault(#[trigger] topics[i]) is None,
    decreases topics.len(),
{
    if topics.len() > 0 {
        let front = topics.drop_last();
        lemma_topic_faults(front);
        if topics_fault(topics) is None {
            assert forall|i: int| 0 <= i < topics.len() implies topic_fault(
                #[trigger] topics[i],
            ) is None by {
                if i < front.len() {
                    assert(topic_fault(front[i]) is None);
                }
            }
        } else if topics_fault(front) is None {
            assert(topic_fault(topics[topics.len() - 1]) is Some);
        } else {
            let i = choose|i: int| 0 <= i < front.len() && topic_fault(#[trigger] front[i]) is Some;
            assert(topics[i] == front[i]);
        }
    }
}

/// A configuration is valid exactly where its state file is named if it has one,
/// and every source, the destination if there is one, and every topic is accepted.
pub proof fn law_configurations_are_valid(config: AppConfig)
    ensures
        config_fault(config) is None <==> {
            &&& config.state_file matches Some(file) ==> file@.len() > 0
            &&& forall|name: Seq<char>| #[trigger]
                config.sources@.contains_key(name) ==> source_fault(
                    name,
                    config.sources@[name],
                ) is None
            &&& config.destination matches Some(destination) ==> destination_fault(
                destination,
            ) is None
            &&& forall|i: int|
                0 <= i < config.topics@.len() ==> topic_fault(
                    #[trigger] config.topics@[i],
                ) is None
        },
{
    let keys = config.sources.keys();
    lemma_source_faults(config.sources, keys.len() as int);
    lemma_topic_faults(config.topics@);
    if forall|i: int|
        0 <= i < keys.len() ==> source_fault(
            #[trigger] keys[i],
            config.sources@[keys[i]],
        ) is None {
        assert forall|name: Seq<char>| #[trigger] config.sources@.contains_key(
            name,
        ) implies source_fault(name, config.sources@[name]) is None by {
            let i = choose|i: int| 0 <= i < keys.len() && keys[i] == name;
            assert(source_fault(keys[i], config.sources@[keys[i]]) is None);
        }
    } else {
        let i = choose|i: int|
            0 <= i < keys.len() && source_fault(
                #[trigger] keys[i],
                config.sources@[keys[i]],
            ) is Some;
        assert(keys.contains(keys[i]));
        assert(config.sources@.contains_key(keys[i]));
    }
}

/// Of the properties that are wrong, the first is told.
pub proof fn law_first_wrong_property_is_told(
    keys: Seq<Seq<char>>,
    reserved: Seq<Seq<char>>,
    scope: Seq<char>,
    at: int,
)
    requires
        0 <= at < keys.len(),
        properties_fault(keys.take(at), reserved, scope) is None,
        property_fault(keys[at], reserved, scope) is Some,
    ensures
        properties_fault(keys, reserved, scope) == property_fault(keys[at], reserved, scope),
{
    assert(keys.take(at + 1).drop_last() =~= keys.take(at));
    assert(keys.take(at + 1).last() == keys[at]);
    lemma_properties_fault_stays(keys, at + 1, reserved, scope);
}

/// Of the topics that are wrong, the first is told.
pub proof fn law_first_wrong_topic_is_told(
    topics: Seq<DestinationTopicConfig>,
    at: int,
)
    requires
        0 <= at < topics.len(),
        topics_fault(topics.take(at)) is None,
        topic_fault(topics[at]) is Some,
    ensures
        topics_fault(topics) == topic_fault(topics[at]),
{
    assert(topics.take(at + 1).drop_last() =~= topics.take(at));
    assert(topics.take(at + 1).last() == topics[at]);
    lemma_topics_fault_stays(topics, at + 1);
}

} // verus!
