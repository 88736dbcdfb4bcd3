//! The client library's settings for each of the clients.

use crate::config;
use crate::config::{DestinationKafkaConfig, SaslConfig, SourceKafkaConfig};
use crate::text_map::TextMap;
use rdkafka::config::ClientConfig;
use vstd::prelude::*;

verus! {

/// The client library's settings.
#[verifier::external_type_specification]
#[verifier::external_body]
pub struct ExClientConfig(ClientConfig);

/// The settings that have been made, by name.
pub uninterp spec fn client_settings(client: ClientConfig) -> Map<Seq<char>, Seq<char>>;

/// No settings.
pub open spec fn no_settings() -> Map<Seq<char>, Seq<char>> {
    Map::empty()
}

/// `ClientConfig::new`. Trusted: no settings have been made.
#[verifier::external_body]
pub(crate) fn client_new() -> (r: ClientConfig)
    ensures
        client_settings(r) == no_settings(),
{
    ClientConfig::new()
}

/// `ClientConfig::set`. Trusted: the setting is made, in place of an earlier one
/// of the same name.
#[verifier::external_body]
pub(crate) fn client_set(client: &mut ClientConfig, key: &str, value: &str)
    ensures
        client_settings(*final(client)) == client_settings(*old(client)).insert(key@, value@),
{
    client.set(key, value);
}

/// Settings and an optional one more.
pub open spec fn with_optional(
    settings: Map<Seq<char>, Seq<char>>,
    key: Seq<char>,
    value: Option<String>,
) -> Map<Seq<char>, Seq<char>> {
    match value {
        Some(value) => settings.insert(key, value@),
        None => settings,
    }
}

/// Settings and those for authentication.
pub open spec fn with_security(
    settings: Map<Seq<char>, Seq<char>>,
    security_protocol: Option<String>,
    sasl: Option<SaslConfig>,
    password: Seq<char>,
) -> Map<Seq<char>, Seq<char>> {
    let protocol = with_optional(settings, "security.protocol"@, security_protocol);
    match sasl {
        Some(sasl) => protocol.insert("sasl.mechanism"@, sasl.mechanism@).insert(
            "sasl.username"@,
            sasl.username@,
        ).insert("sasl.password"@, password),
        None => protocol,
    }
}

/// Settings and some properties.
pub open spec fn with_properties(
    settings: Map<Seq<char>, Seq<char>>,
    keys: Seq<Seq<char>>,
    properties: Map<Seq<char>, String>,
) -> Map<Seq<char>, Seq<char>>
    decreases keys.len(),
{
    if keys.len() == 0 {
        settings
    } else {
        with_properties(settings, keys.drop_last(), properties).insert(
            keys.last(),
            properties[keys.last()]@,
        )
    }
}

/// Properties leave every setting of another name alone.
proof fn lemma_other_settings(
    settings: Map<Seq<char>, Seq<char>>,
    keys: Seq<Seq<char>>,
    properties: Map<Seq<char>, String>,
    key: Seq<char>,
)
    requires
        !keys.contains(key),
    ensures
        with_properties(settings, keys, properties).contains_key(key) == settings.contains_key(key),
        with_properties(settings, keys, properties)[key] == settings[key],
    decreases keys.len(),
{
    if keys.len() > 0 {
        assert(keys.contains(keys.last()));
        assert forall|i: int| 0 <= i < keys.drop_last().len() implies keys.drop_last()[i] != key by {
            assert(keys.contains(keys[i]));
        }
        lemma_other_settings(settings, keys.drop_last(), properties, key);
    }
}

fn set_properties(client: &mut ClientConfig, properties: &TextMap<String>)
    ensures
        client_settings(*final(client)) == with_properties(
            client_settings(*old(client)),
            properties.keys(),
            properties@,
        ),
{
    let ghost keys = properties.keys();
    let mut i: usize = 0;
    assert(keys.take(0) == Seq::<Seq<char>>::empty());
    while i < properties.len()
        invariant
            i <= keys.len(),
            keys == properties.keys(),
            client_settings(*client) == with_properties(
                client_settings(*old(client)),
                keys.take(i as int),
                properties@,
            ),
        decreases keys.len() - i,
    {
        client_set(client, properties.key_at(i), properties.value_at(i).as_str());
        assert(keys.take(i + 1).drop_last() == keys.take(i as int));
        i = i + 1;
    }
    assert(keys.take(i as int) == keys);
}

fn set_optional(client: &mut ClientConfig, key: &str, value: &Option<String>)
    ensures
        client_settings(*final(client)) == with_optional(
            client_settings(*old(client)),
            key@,
            *value,
        ),
{
    if let Some(value) = value {
        client_set(client, key, value.as_str());
    }
}

/// Makes the settings for authentication. The password matters only where there
/// are SASL credentials.
pub fn apply_security_config(
    client: &mut ClientConfig,
    security_protocol: &Option<String>,
    sasl: &Option<SaslConfig>,
    password: &str,
)
    ensures
        client_settings(*final(client)) == with_security(
            client_settings(*old(client)),
            *security_protocol,
            *sasl,
            password@,
        ),
{
    set_optional(client, "security.protocol", security_protocol);
    if let Some(sasl) = sasl {
        client_set(client, "sasl.mechanism", sasl.mechanism.as_str());
        client_set(client, "sasl.username", sasl.username.as_str());
        client_set(client, "sasl.password", password);
    }
}

/// A source's settings and its properties, on top of some settings.
pub open spec fn with_source(
    settings: Map<Seq<char>, Seq<char>>,
    config: SourceKafkaConfig,
    password: Seq<char>,
) -> Map<Seq<char>, Seq<char>> {
    with_properties(
        with_security(
            with_optional(settings, "client.id"@, config.client_id),
            config.security_protocol,
            config.sasl,
            password,
        ),
        config.properties.keys(),
        config.properties@,
    )
}

/// The destination's settings and its properties, on top of some settings.
pub open spec fn with_destination(
    settings: Map<Seq<char>, Seq<char>>,
    config: DestinationKafkaConfig,
    password: Seq<char>,
) -> Map<Seq<char>, Seq<char>> {
    with_properties(
        with_security(
            with_optional(settings, "client.id"@, config.client_id),
            config.security_protocol,
            config.sasl,
            password,
        ),
        config.properties.keys(),
        config.properties@,
    )
}

fn add_source(client: &mut ClientConfig, config: &SourceKafkaConfig, password: &str)
    ensures
        client_settings(*final(client)) == with_source(
            client_settings(*old(client)),
            *config,
            password@,
        ),
{
    set_optional(client, "client.id", &config.client_id);
    apply_security_config(client, &config.security_protocol, &config.sasl, password);
    set_properties(client, &config.properties);
}

fn add_destination(client: &mut ClientConfig, config: &DestinationKafkaConfig, password: &str)
    ensures
        client_settings(*final(client)) == with_destination(
            client_settings(*old(client)),
            *config,
            password@,
        ),
{
    set_optional(client, "client.id", &config.client_id);
    apply_security_config(client, &config.security_protocol, &config.sasl, password);
    set_properties(client, &config.properties);
}

/// The settings that a source consumer starts out with.
pub open spec fn consumer_base(bootstrap_servers: Seq<char>, group_id: Seq<char>) -> Map<
    Seq<char>,
    Seq<char>,
> {
    no_settings().insert("bootstrap.servers"@, bootstrap_servers).insert(
        "enable.auto.commit"@,
        "false"@,
    ).insert("enable.auto.offset.store"@, "false"@).insert("group.id"@, group_id)
}

/// The settings of a source consumer. It never commits offsets, and an offset
/// that is gone is an error rather than a jump. It tells the end of a partition
/// where that is asked for.
pub open spec fn source_consumer_settings(
    config: SourceKafkaConfig,
    password: Seq<char>,
    partition_eof: bool,
) -> Map<Seq<char>, Seq<char>> {
    let settings = with_source(
        consumer_base(config.bootstrap_servers@, config.group_id@),
        config,
        password,
    ).insert("auto.offset.reset"@, "error"@);
    if partition_eof {
        settings.insert("enable.partition.eof"@, "true"@)
    } else {
        settings
    }
}

fn consumer_config(bootstrap_servers: &str, group_id: &str) -> (r: ClientConfig)
    ensures
        client_settings(r) == consumer_base(bootstrap_servers@, group_id@),
{
    let mut client = client_new();
    client_set(&mut client, "bootstrap.servers", bootstrap_servers);
    client_set(&mut client, "enable.auto.commit", "false");
    client_set(&mut client, "enable.auto.offset.store", "false");
    client_set(&mut client, "group.id", group_id);
    client
}

/// The settings of a source consumer.
pub fn source_consumer_config(config: &SourceKafkaConfig, password: &str, partition_eof: bool) -> (r:
    ClientConfig)
    ensures
        client_settings(r) == source_consumer_settings(*config, password@, partition_eof),
{
    let mut client = consumer_config(
        config.bootstrap_servers.as_str(),
        config::source_consumer_group_id(config),
    );
    add_source(&mut client, config, password);
    client_set(&mut client, "auto.offset.reset", "error");
    if partition_eof {
        client_set(&mut client, "enable.partition.eof", "true");
    }
    client
}

/// The settings of a consumer that dumps a topic. It never commits offsets, an
/// offset that is gone is an error rather than a jump, and it tells the end of a
/// partition.
pub open spec fn dump_consumer_settings(config: SourceKafkaConfig, password: Seq<char>) -> Map<
    Seq<char>,
    Seq<char>,
> {
    with_source(
        consumer_base(config.bootstrap_servers@, config.group_id@),
        config,
        password,
    ).insert("enable.auto.commit"@, "false"@).insert("enable.auto.offset.store"@, "false"@).insert(
        "auto.offset.reset"@,
        "error"@,
    ).insert("enable.partition.eof"@, "true"@)
}

/// The settings of a consumer that dumps a topic.
pub fn dump_consumer_config(config: &SourceKafkaConfig, password: &str) -> (r: ClientConfig)
    ensures
        client_settings(r) == dump_consumer_settings(*config, password@),
{
    let mut client = consumer_config(
        config.bootstrap_servers.as_str(),
        config::source_consumer_group_id(config),
    );
    add_source(&mut client, config, password);
    client_set(&mut client, "enable.auto.commit", "false");
    client_set(&mut client, "enable.auto.offset.store", "false");
    client_set(&mut client, "auto.offset.reset", "error");
    client_set(&mut client, "enable.partition.eof", "true");
    client
}

/// The settings of the consumer that asks the destination for metadata.
pub open spec fn destination_metadata_settings(
    config: DestinationKafkaConfig,
    password: Seq<char>,
) -> Map<Seq<char>, Seq<char>> {
    with_destination(
        consumer_base(config.bootstrap_servers@, "fransson-destination-metadata"@),
        config,
        password,
    )
}

/// The settings of the consumer that asks the destination for metadata.
pub fn destination_metadata_config(config: &DestinationKafkaConfig, password: &str) -> (r:
    ClientConfig)
    ensures
        client_settings(r) == destination_metadata_settings(*config, password@),
{
    let mut client = consumer_config(
        config.bootstrap_servers.as_str(),
        "fransson-destination-metadata",
    );
    add_destination(&mut client, config, password);
    client
}

/// The settings of the destination's admin client.
pub open spec fn admin_settings(config: DestinationKafkaConfig, password: Seq<char>) -> Map<
    Seq<char>,
    Seq<char>,
> {
    with_destination(
        no_settings().insert(
            "bootstrap.servers"@,
            config.bootstrap_servers@,
        ),
        config,
        password,
    )
}

/// The settings of the destination's admin client.
pub fn admin_config(config: &DestinationKafkaConfig, password: &str) -> (r: ClientConfig)
    ensures
        client_settings(r) == admin_settings(*config, password@),
{
    let mut client = client_new();
    client_set(&mut client, "bootstrap.servers", config.bootstrap_servers.as_str());
    add_destination(&mut client, config, password);
    client
}

/// The settings of the producer for clones and restores.
pub open spec fn producer_settings(config: DestinationKafkaConfig, password: Seq<char>) -> Map<
    Seq<char>,
    Seq<char>,
> {
    with_destination(
        no_settings().insert(
            "bootstrap.servers"@,
            config.bootstrap_servers@,
        ).insert("acks"@, "all"@).insert("enable.idempotence"@, "true"@).insert(
            "compression.type"@,
            "lz4"@,
        ),
        config,
        password,
    )
}

/// The settings of the producer for clones and restores.
pub fn producer_config(config: &DestinationKafkaConfig, password: &str) -> (r: ClientConfig)
    ensures
        client_settings(r) == producer_settings(*config, password@),
{
    let mut client = client_new();
    client_set(&mut client, "bootstrap.servers", config.bootstrap_servers.as_str());
    client_set(&mut client, "acks", "all");
    client_set(&mut client, "enable.idempotence", "true");
    client_set(&mut client, "compression.type", "lz4");
    add_destination(&mut client, config, password);
    client
}

/// The settings of the producer for streams. It waits through outages of the
/// destination, whatever the properties say.
pub open spec fn stream_producer_settings(
    config: DestinationKafkaConfig,
    password: Seq<char>,
) -> Map<Seq<char>, Seq<char>> {
    with_destination(
        no_settings().insert(
            "bootstrap.servers"@,
            config.bootstrap_servers@,
        ).insert("compression.type"@, "lz4"@),
        config,
        password,
    ).insert("acks"@, "all"@).insert("enable.idempotence"@, "true"@).insert(
        "message.send.max.retries"@,
        "2147483647"@,
    ).insert("message.timeout.ms"@, "0"@).insert(
        "max.in.flight.requests.per.connection"@,
        "5"@,
    )
}

/// The settings of the producer for streams.
pub fn stream_producer_config(config: &DestinationKafkaConfig, password: &str) -> (r: ClientConfig)
    ensures
        client_settings(r) == stream_producer_settings(*config, password@),
{
    let mut client = client_new();
    client_set(&mut client, "bootstrap.servers", config.bootstrap_servers.as_str());
    client_set(&mut client, "compression.type", "lz4");
    add_destination(&mut client, config, password);
    client_set(&mut client, "acks", "all");
    client_set(&mut client, "enable.idempotence", "true");
    client_set(&mut client, "message.send.max.retries", "2147483647");
    client_set(&mut client, "message.timeout.ms", "0");
    client_set(&mut client, "max.in.flight.requests.per.connection", "5");
    client
}

proof fn lemma_source_names()
    ensures
        config::source_reserved().no_duplicates(),
{
    let names = config::source_reserved();
    reveal_strlit("bootstrap.servers");
    reveal_strlit("client.id");
    reveal_strlit("group.id");
    reveal_strlit("security.protocol");
    reveal_strlit("sasl.mechanism");
    reveal_strlit("sasl.username");
    reveal_strlit("sasl.password");
    reveal_strlit("enable.auto.commit");
    reveal_strlit("enable.auto.offset.store");
    reveal_strlit("enable.partition.eof");
    reveal_strlit("auto.offset.reset");
    assert(names[0].len() == 17 && names[0][7] == 'a');
    assert(names[1].len() == 9 && names[1][7] == 'i');
    assert(names[2].len() == 8 && names[2][7] == 'd');
    assert(names[3].len() == 17 && names[3][7] == 'y');
    assert(names[4].len() == 14 && names[4][7] == 'c');
    assert(names[5].len() == 13 && names[5][7] == 'e');
    assert(names[6].len() == 13 && names[6][7] == 's');
    assert(names[7].len() == 18 && names[7][7] == 'a');
    assert(names[8].len() == 24 && names[8][7] == 'a');
    assert(names[9].len() == 20 && names[9][7] == 'p');
    assert(names[10].len() == 17 && names[10][7] == 'f');
    assert forall|i: int, j: int|
        0 <= i < names.len() && 0 <= j < names.len() && i != j implies names[i] != names[j] by {
        assert(names.len() == 11);
    }
}

proof fn lemma_destination_names()
    ensures
        config::destination_reserved().no_duplicates(),
        !config::destination_reserved().contains("compression.type"@),
{
    let names = config::destination_reserved();
    reveal_strlit("bootstrap.servers");
    reveal_strlit("client.id");
    reveal_strlit("group.id");
    reveal_strlit("security.protocol");
    reveal_strlit("sasl.mechanism");
    reveal_strlit("sasl.username");
    reveal_strlit("sasl.password");
    reveal_strlit("enable.auto.commit");
    reveal_strlit("enable.auto.offset.store");
    reveal_strlit("acks");
    reveal_strlit("enable.idempotence");
    reveal_strlit("message.send.max.retries");
    reveal_strlit("retries");
    reveal_strlit("message.timeout.ms");
    reveal_strlit("delivery.timeout.ms");
    reveal_strlit("max.in.flight.requests.per.connection");
    reveal_strlit("compression.type");
    assert(names[0].len() == 17 && names[0][7] == 'a');
    assert(names[1].len() == 9 && names[1][7] == 'i');
    assert(names[2].len() == 8 && names[2][7] == 'd');
    assert(names[3].len() == 17 && names[3][7] == 'y');
    assert(names[4].len() == 14 && names[4][7] == 'c');
    assert(names[5].len() == 13 && names[5][7] == 'e');
    assert(names[6].len() == 13 && names[6][7] == 's');
    assert(names[7].len() == 18 && names[7][7] == 'a');
    assert(names[8].len() == 24 && names[8][7] == 'a');
    assert(names[9].len() == 4);
    assert(names[10].len() == 18 && names[10][7] == 'i');
    assert(names[11].len() == 24 && names[11][7] == '.');
    assert(names[12].len() == 7);
    assert(names[13].len() == 18 && names[13][7] == '.');
    assert(names[14].len() == 19 && names[14][7] == 'y');
    assert(names[15].len() == 37 && names[15][7] == 'f');
    assert forall|i: int, j: int|
        0 <= i < names.len() && 0 <= j < names.len() && i != j implies names[i] != names[j] by {
        assert(names.len() == 16);
    }
    assert forall|i: int| 0 <= i < names.len() implies names[i] != "compression.type"@ by {
        assert(names.len() == 16);
        assert("compression.type"@.len() == 16);
    }
}

/// Properties without reserved names.
pub open spec fn unreserved(properties: TextMap<String>, reserved: Seq<Seq<char>>) -> bool {
    forall|i: int|
        0 <= i < properties.keys().len() ==> !reserved.contains(#[trigger] properties.keys()[i])
}

proof fn lemma_unreserved(
    settings: Map<Seq<char>, Seq<char>>,
    properties: TextMap<String>,
    reserved: Seq<Seq<char>>,
    at: int,
)
    requires
        unreserved(properties, reserved),
        0 <= at < reserved.len(),
    ensures
        with_properties(settings, properties.keys(), properties@).contains_key(reserved[at])
            == settings.contains_key(reserved[at]),
        with_properties(settings, properties.keys(), properties@)[reserved[at]]
            == settings[reserved[at]],
{
    let key = reserved[at];
    assert(reserved.contains(key));
    if properties.keys().contains(key) {
        let i = choose|i: int| 0 <= i < properties.keys().len() && properties.keys()[i] == key;
        assert(!reserved.contains(properties.keys()[i]));
    }
    lemma_other_settings(settings, properties.keys(), properties@, key);
}

/// A source consumer reads the configured cluster in the configured group,
/// never commits offsets, and treats an offset that is gone as an error,
/// whatever properties a valid configuration has.
pub proof fn law_source_consumer_is_reliable(
    config: SourceKafkaConfig,
    password: Seq<char>,
    partition_eof: bool,
)
    requires
        unreserved(config.properties, config::source_reserved()),
    ensures
        ({
            let settings = source_consumer_settings(config, password, partition_eof);
            &&& settings["bootstrap.servers"@] == config.bootstrap_servers@
            &&& settings["group.id"@] == config.group_id@
            &&& settings["enable.auto.commit"@] == "false"@
            &&& settings["enable.auto.offset.store"@] == "false"@
            &&& settings["auto.offset.reset"@] == "error"@
            &&& settings.contains_key("enable.partition.eof"@) == partition_eof
            &&& partition_eof ==> settings["enable.partition.eof"@] == "true"@
            &&& config.client_id matches Some(id) ==> settings["client.id"@] == id@
            &&& config.security_protocol matches Some(protocol) ==> settings["security.protocol"@]
                == protocol@
            &&& config.sasl matches Some(sasl) ==> settings["sasl.mechanism"@] == sasl.mechanism@
                && settings["sasl.username"@] == sasl.username@ && settings["sasl.password"@]
                == password
        }),
{
    let reserved = config::source_reserved();
    let before = with_security(
        with_optional(
            consumer_base(config.bootstrap_servers@, config.group_id@),
            "client.id"@,
            config.client_id,
        ),
        config.security_protocol,
        config.sasl,
        password,
    );
    lemma_source_names();
    assert(reserved[0] == "bootstrap.servers"@);
    assert(reserved[1] == "client.id"@);
    assert(reserved[2] == "group.id"@);
    assert(reserved[3] == "security.protocol"@);
    assert(reserved[4] == "sasl.mechanism"@);
    assert(reserved[5] == "sasl.username"@);
    assert(reserved[6] == "sasl.password"@);
    assert(reserved[7] == "enable.auto.commit"@);
    assert(reserved[8] == "enable.auto.offset.store"@);
    assert(reserved[9] == "enable.partition.eof"@);
    assert(reserved[10] == "auto.offset.reset"@);
    lemma_unreserved(before, config.properties, reserved, 0);
    lemma_unreserved(before, config.properties, reserved, 1);
    lemma_unreserved(before, config.properties, reserved, 2);
    lemma_unreserved(before, config.properties, reserved, 3);
    lemma_unreserved(before, config.properties, reserved, 4);
    lemma_unreserved(before, config.properties, reserved, 5);
    lemma_unreserved(before, config.properties, reserved, 6);
    lemma_unreserved(before, config.properties, reserved, 7);
    lemma_unreserved(before, config.properties, reserved, 8);
    lemma_unreserved(before, config.properties, reserved, 9);
}

/// A consumer that dumps a topic never commits offsets, treats an offset that is
/// gone as an error, and tells the end of a partition, whatever its properties.
pub proof fn law_dump_consumer_is_reliable(config: SourceKafkaConfig, password: Seq<char>)
    ensures
        ({
            let settings = dump_consumer_settings(config, password);
            &&& settings["enable.auto.commit"@] == "false"@
            &&& settings["enable.auto.offset.store"@] == "false"@
            &&& settings["auto.offset.reset"@] == "error"@
            &&& settings["enable.partition.eof"@] == "true"@
        }),
{
    let reserved = config::source_reserved();
    lemma_source_names();
    assert(reserved[7] == "enable.auto.commit"@);
    assert(reserved[8] == "enable.auto.offset.store"@);
    assert(reserved[9] == "enable.partition.eof"@);
    assert(reserved[10] == "auto.offset.reset"@);
}

/// Clones and restores are acknowledged by all replicas and written exactly
/// once, whatever properties a valid configuration has.
pub proof fn law_producer_is_reliable(config: DestinationKafkaConfig, password: Seq<char>)
    requires
        unreserved(config.properties, config::destination_reserved()),
    ensures
        ({
            let settings = producer_settings(config, password);
            &&& settings["bootstrap.servers"@] == config.bootstrap_servers@
            &&& settings["acks"@] == "all"@
            &&& settings["enable.idempotence"@] == "true"@
        }),
{
    let reserved = config::destination_reserved();
    let before = with_security(
        with_optional(
            no_settings().insert("bootstrap.servers"@, config.bootstrap_servers@).insert(
                "acks"@,
                "all"@,
            ).insert("enable.idempotence"@, "true"@).insert("compression.type"@, "lz4"@),
            "client.id"@,
            config.client_id,
        ),
        config.security_protocol,
        config.sasl,
        password,
    );
    lemma_destination_names();
    assert(reserved[0] == "bootstrap.servers"@);
    assert(reserved[1] == "client.id"@);
    assert(reserved[3] == "security.protocol"@);
    assert(reserved[4] == "sasl.mechanism"@);
    assert(reserved[5] == "sasl.username"@);
    assert(reserved[6] == "sasl.password"@);
    assert(reserved[9] == "acks"@);
    assert(reserved[10] == "enable.idempotence"@);
    assert(reserved.contains("bootstrap.servers"@));
    assert(reserved.contains("acks"@));
    assert(reserved.contains("enable.idempotence"@));
    lemma_unreserved(before, config.properties, reserved, 0);
    lemma_unreserved(before, config.properties, reserved, 9);
    lemma_unreserved(before, config.properties, reserved, 10);
}

/// Streams are acknowledged by all replicas, written exactly once and in order,
/// and retried without limit, whatever the properties.
pub proof fn law_stream_producer_waits(config: DestinationKafkaConfig, password: Seq<char>)
    ensures
        ({
            let settings = stream_producer_settings(config, password);
            &&& settings["acks"@] == "all"@
            &&& settings["enable.idempotence"@] == "true"@
            &&& settings["message.send.max.retries"@] == "2147483647"@
            &&& settings["message.timeout.ms"@] == "0"@
            &&& settings["max.in.flight.requests.per.connection"@] == "5"@
        }),
{
    let reserved = config::destination_reserved();
    lemma_destination_names();
    assert(reserved[9] == "acks"@);
    assert(reserved[10] == "enable.idempotence"@);
    assert(reserved[11] == "message.send.max.retries"@);
    assert(reserved[13] == "message.timeout.ms"@);
    assert(reserved[15] == "max.in.flight.requests.per.connection"@);
}

/// Properties are all set, and leave every setting of another name alone.
proof fn lemma_properties_set(
    settings: Map<Seq<char>, Seq<char>>,
    keys: Seq<Seq<char>>,
    properties: Map<Seq<char>, String>,
)
    ensures
        forall|key: Seq<char>| #[trigger]
            with_properties(settings, keys, properties).contains_key(key) == (keys.contains(key)
                || settings.contains_key(key)),
        forall|key: Seq<char>|
            #![trigger with_properties(settings, keys, properties)[key]]
            with_properties(settings, keys, properties)[key] == (if keys.contains(key) {
                properties[key]@
            } else {
                settings[key]
            }),
    decreases keys.len(),
{
    if keys.len() > 0 {
        let front = keys.drop_last();
        lemma_properties_set(settings, front, properties);
        assert forall|key: Seq<char>| #[trigger] keys.contains(key) == (front.contains(key) || key
            == keys.last()) by {
            if front.contains(key) {
                let i = choose|i: int| 0 <= i < front.len() && front[i] == key;
                assert(keys[i] == key);
            }
            if keys.contains(key) {
                let i = choose|i: int| 0 <= i < keys.len() && keys[i] == key;
                if i < front.len() {
                    assert(front[i] == key);
                }
            }
            if key == keys.last() {
                assert(keys[keys.len() - 1] == key);
            }
        }
        let earlier = with_properties(settings, front, properties);
        let all = with_properties(settings, keys, properties);
        assert(all == earlier.insert(keys.last(), properties[keys.last()]@));
        assert forall|key: Seq<char>| #[trigger] all.contains_key(key) == (keys.contains(key)
            || settings.contains_key(key)) by {
            assert(earlier.contains_key(key) == (front.contains(key) || settings.contains_key(
                key,
            )));
        }
        assert forall|key: Seq<char>|
            #![trigger all[key]]
            all[key] == (if keys.contains(key) {
                properties[key]@
            } else {
                settings[key]
            }) by {
            assert(earlier[key] == (if front.contains(key) {
                properties[key]@
            } else {
                settings[key]
            }));
        }
    }
}

proof fn lemma_reserved_source(properties: TextMap<String>)
    requires
        unreserved(properties, config::source_reserved()),
    ensures
        !properties@.contains_key("bootstrap.servers"@),
        !properties@.contains_key("client.id"@),
        !properties@.contains_key("group.id"@),
        !properties@.contains_key("security.protocol"@),
        !properties@.contains_key("sasl.mechanism"@),
        !properties@.contains_key("sasl.username"@),
        !properties@.contains_key("sasl.password"@),
        !properties@.contains_key("enable.auto.commit"@),
        !properties@.contains_key("enable.auto.offset.store"@),
        !properties@.contains_key("enable.partition.eof"@),
        !properties@.contains_key("auto.offset.reset"@),
        config::source_reserved() == seq![
            "bootstrap.servers"@,
            "client.id"@,
            "group.id"@,
            "security.protocol"@,
            "sasl.mechanism"@,
            "sasl.username"@,
            "sasl.password"@,
            "enable.auto.commit"@,
            "enable.auto.offset.store"@,
            "enable.partition.eof"@,
            "auto.offset.reset"@,
        ],
{
    let names = config::source_reserved();
    assert(names[0] == "bootstrap.servers"@);
    assert(names[1] == "client.id"@);
    assert(names[2] == "group.id"@);
    assert(names[3] == "security.protocol"@);
    assert(names[4] == "sasl.mechanism"@);
    assert(names[5] == "sasl.username"@);
    assert(names[6] == "sasl.password"@);
    assert(names[7] == "enable.auto.commit"@);
    assert(names[8] == "enable.auto.offset.store"@);
    assert(names[9] == "enable.partition.eof"@);
    assert(names[10] == "auto.offset.reset"@);
    assert forall|i: int| 0 <= i < names.len() implies !properties@.contains_key(
        #[trigger] names[i],
    ) by {
        assert(names.contains(names[i]));
        if properties.keys().contains(names[i]) {
            let j = choose|j: int|
                0 <= j < properties.keys().len() && properties.keys()[j] == names[i];
            assert(!names.contains(properties.keys()[j]));
        }
    }
}

proof fn lemma_reserved_destination(properties: TextMap<String>)
    requires
        unreserved(properties, config::destination_reserved()),
    ensures
        !properties@.contains_key("bootstrap.servers"@),
        !properties@.contains_key("client.id"@),
        !properties@.contains_key("group.id"@),
        !properties@.contains_key("security.protocol"@),
        !properties@.contains_key("sasl.mechanism"@),
        !properties@.contains_key("sasl.username"@),
        !properties@.contains_key("sasl.password"@),
        !properties@.contains_key("enable.auto.commit"@),
        !properties@.contains_key("enable.auto.offset.store"@),
        !properties@.contains_key("acks"@),
        !properties@.contains_key("enable.idempotence"@),
        !properties@.contains_key("message.send.max.retries"@),
        !properties@.contains_key("retries"@),
        !properties@.contains_key("message.timeout.ms"@),
        !properties@.contains_key("delivery.timeout.ms"@),
        !properties@.contains_key("max.in.flight.requests.per.connection"@),
        config::destination_reserved() == seq![
            "bootstrap.servers"@,
            "client.id"@,
            "group.id"@,
            "security.protocol"@,
            "sasl.mechanism"@,
            "sasl.username"@,
            "sasl.password"@,
            "enable.auto.commit"@,
            "enable.auto.offset.store"@,
            "acks"@,
            "enable.idempotence"@,
            "message.send.max.retries"@,
            "retries"@,
            "message.timeout.ms"@,
            "delivery.timeout.ms"@,
            "max.in.flight.requests.per.connection"@,
        ],
{
    let names = config::destination_reserved();
    assert(names[0] == "bootstrap.servers"@);
    assert(names[1] == "client.id"@);
    assert(names[2] == "group.id"@);
    assert(names[3] == "security.protocol"@);
    assert(names[4] == "sasl.mechanism"@);
    assert(names[5] == "sasl.username"@);
    assert(names[6] == "sasl.password"@);
    assert(names[7] == "enable.auto.commit"@);
    assert(names[8] == "enable.auto.offset.store"@);
    assert(names[9] == "acks"@);
    assert(names[10] == "enable.idempotence"@);
    assert(names[11] == "message.send.max.retries"@);
    assert(names[12] == "retries"@);
    assert(names[13] == "message.timeout.ms"@);
    assert(names[14] == "delivery.timeout.ms"@);
    assert(names[15] == "max.in.flight.requests.per.connection"@);
    assert forall|i: int| 0 <= i < names.len() implies !properties@.contains_key(
        #[trigger] names[i],
    ) by {
        assert(names.contains(names[i]));
        if properties.keys().contains(names[i]) {
            let j = choose|j: int|
                0 <= j < properties.keys().len() && properties.keys()[j] == names[i];
            assert(!names.contains(properties.keys()[j]));
        }
    }
}

/// A source consumer is set up as its source is configured: the cluster and the
/// group, the client's name and the credentials where there are any, every
/// property, and nothing but that and what makes it reliable.
pub proof fn law_source_consumer_is_as_configured(config: SourceKafkaConfig, password: Seq<char>, partition_eof: bool)
    requires
        unreserved(config.properties, config::source_reserved()),
    ensures
        ({
            let settings = source_consumer_settings(config, password, partition_eof);
            &&& settings.contains_key("bootstrap.servers"@) && settings["bootstrap.servers"@] == config.bootstrap_servers@
            &&& settings.contains_key("group.id"@) && settings["group.id"@] == config.group_id@
            &&& settings.contains_key("enable.auto.commit"@) && settings["enable.auto.commit"@] == "false"@
            &&& settings.contains_key("enable.auto.offset.store"@) && settings["enable.auto.offset.store"@] == "false"@
            &&& settings.contains_key("auto.offset.reset"@) && settings["auto.offset.reset"@] == "error"@
            &&& settings.contains_key("enable.partition.eof"@) == partition_eof
            &&& partition_eof ==> settings["enable.partition.eof"@] == "true"@
            &&& match config.client_id {
                Some(id) => settings.contains_key("client.id"@) && settings["client.id"@] == id@,
                None => !settings.contains_key("client.id"@),
            }
            &&& match config.security_protocol {
                Some(protocol) => settings.contains_key("security.protocol"@)
                    && settings["security.protocol"@] == protocol@,
                None => !settings.contains_key("security.protocol"@),
            }
            &&& match config.sasl {
                Some(sasl) => {
                    &&& settings.contains_key("sasl.mechanism"@) && settings["sasl.mechanism"@]
                        == sasl.mechanism@
                    &&& settings.contains_key("sasl.username"@) && settings["sasl.username"@]
                        == sasl.username@
                    &&& settings.contains_key("sasl.password"@) && settings["sasl.password"@]
                        == password
                },
                None => {
                    &&& !settings.contains_key("sasl.mechanism"@)
                    &&& !settings.contains_key("sasl.username"@)
                    &&& !settings.contains_key("sasl.password"@)
                },
            }
            &&& forall|key: Seq<char>| #[trigger]
                config.properties@.contains_key(key) ==> settings.contains_key(key)
                    && settings[key] == config.properties@[key]@
            &&& forall|key: Seq<char>| #[trigger]
                settings.contains_key(key) ==> {
                    ||| config.properties@.contains_key(key)
                    ||| key == "bootstrap.servers"@ || key == "group.id"@
                    ||| key == "enable.auto.commit"@ || key == "enable.auto.offset.store"@
                    ||| key == "auto.offset.reset"@ || key == "enable.partition.eof"@
                    ||| key == "client.id"@ || key == "security.protocol"@
                    ||| key == "sasl.mechanism"@ || key == "sasl.username"@
                    ||| key == "sasl.password"@
                }
        }),
{
    let before = with_security(
        with_optional(consumer_base(config.bootstrap_servers@, config.group_id@), "client.id"@, config.client_id),
        config.security_protocol,
        config.sasl,
        password,
    );
    lemma_source_names();
    lemma_reserved_source(config.properties);
    lemma_properties_set(before, config.properties.keys(), config.properties@);
}

/// A consumer that dumps a topic is set up as its source is configured: the
/// cluster and the group, the client's name and the credentials where there are
/// any, every property, and nothing but that and what makes it reliable.
pub proof fn law_dump_consumer_is_as_configured(config: SourceKafkaConfig, password: Seq<char>)
    requires
        unreserved(config.properties, config::source_reserved()),
    ensures
        ({
            let settings = dump_consumer_settings(config, password);
            &&& settings.contains_key("bootstrap.servers"@) && settings["bootstrap.servers"@] == config.bootstrap_servers@
            &&& settings.contains_key("group.id"@) && settings["group.id"@] == config.group_id@
            &&& settings.contains_key("enable.auto.commit"@) && settings["enable.auto.commit"@] == "false"@
            &&& settings.contains_key("enable.auto.offset.store"@) && settings["enable.auto.offset.store"@] == "false"@
            &&& settings.contains_key("auto.offset.reset"@) && settings["auto.offset.reset"@] == "error"@
            &&& settings.contains_key("enable.partition.eof"@) && settings["enable.partition.eof"@] == "true"@
            &&& match config.client_id {
                Some(id) => settings.contains_key("client.id"@) && settings["client.id"@] == id@,
                None => !settings.contains_key("client.id"@),
            }
            &&& match config.security_protocol {
                Some(protocol) => settings.contains_key("security.protocol"@)
                    && settings["security.protocol"@] == protocol@,
                None => !settings.contains_key("security.protocol"@),
            }
            &&& match config.sasl {
                Some(sasl) => {
                    &&& settings.contains_key("sasl.mechanism"@) && settings["sasl.mechanism"@]
                        == sasl.mechanism@
                    &&& settings.contains_key("sasl.username"@) && settings["sasl.username"@]
                        == sasl.username@
                    &&& settings.contains_key("sasl.password"@) && settings["sasl.password"@]
                        == password
                },
                None => {
                    &&& !settings.contains_key("sasl.mechanism"@)
                    &&& !settings.contains_key("sasl.username"@)
                    &&& !settings.contains_key("sasl.password"@)
                },
            }
            &&& forall|key: Seq<char>| #[trigger]
                config.properties@.contains_key(key) ==> settings.contains_key(key)
                    && settings[key] == config.properties@[key]@
            &&& forall|key: Seq<char>| #[trigger]
                settings.contains_key(key) ==> {
                    ||| config.properties@.contains_key(key)
                    ||| key == "bootstrap.servers"@ || key == "group.id"@
                    ||| key == "enable.auto.commit"@ || key == "enable.auto.offset.store"@
                    ||| key == "auto.offset.reset"@ || key == "enable.partition.eof"@
                    ||| key == "client.id"@ || key == "security.protocol"@
                    ||| key == "sasl.mechanism"@ || key == "sasl.username"@
                    ||| key == "sasl.password"@
                }
        }),
{
    let before = with_security(
        with_optional(consumer_base(config.bootstrap_servers@, config.group_id@), "client.id"@, config.client_id),
        config.security_protocol,
        config.sasl,
        password,
    );
    lemma_source_names();
    lemma_reserved_source(config.properties);
    lemma_properties_set(before, config.properties.keys(), config.properties@);
}

/// The consumer that asks the destination for metadata is set up as the
/// destination is configured, and never commits offsets.
pub proof fn law_destination_consumer_is_as_configured(config: DestinationKafkaConfig, password: Seq<char>)
    requires
        unreserved(config.properties, config::destination_reserved()),
    ensures
        ({
            let settings = destination_metadata_settings(config, password);
            &&& settings.contains_key("bootstrap.servers"@) && settings["bootstrap.servers"@] == config.bootstrap_servers@
            &&& settings.contains_key("group.id"@) && settings["group.id"@] == "fransson-destination-metadata"@
            &&& settings.contains_key("enable.auto.commit"@) && settings["enable.auto.commit"@] == "false"@
            &&& settings.contains_key("enable.auto.offset.store"@) && settings["enable.auto.offset.store"@] == "false"@
            &&& match config.client_id {
                Some(id) => settings.contains_key("client.id"@) && settings["client.id"@] == id@,
                None => !settings.contains_key("client.id"@),
            }
            &&& match config.security_protocol {
                Some(protocol) => settings.contains_key("security.protocol"@)
                    && settings["security.protocol"@] == protocol@,
                None => !settings.contains_key("security.protocol"@),
            }
            &&& match config.sasl {
                Some(sasl) => {
                    &&& settings.contains_key("sasl.mechanism"@) && settings["sasl.mechanism"@]
                        == sasl.mechanism@
                    &&& settings.contains_key("sasl.username"@) && settings["sasl.username"@]
                        == sasl.username@
                    &&& settings.contains_key("sasl.password"@) && settings["sasl.password"@]
                        == password
                },
                None => {
                    &&& !settings.contains_key("sasl.mechanism"@)
                    &&& !settings.contains_key("sasl.username"@)
                    &&& !settings.contains_key("sasl.password"@)
                },
            }
            &&& forall|key: Seq<char>| #[trigger]
                config.properties@.contains_key(key) ==> settings.contains_key(key)
                    && settings[key] == config.properties@[key]@
            &&& forall|key: Seq<char>| #[trigger]
                settings.contains_key(key) ==> {
                    ||| config.properties@.contains_key(key)
                    ||| key == "bootstrap.servers"@ || key == "group.id"@
                    ||| key == "enable.auto.commit"@ || key == "enable.auto.offset.store"@
                    ||| key == "client.id"@ || key == "security.protocol"@
                    ||| key == "sasl.mechanism"@ || key == "sasl.username"@
                    ||| key == "sasl.password"@
                }
        }),
{
    let before = with_security(
        with_optional(consumer_base(config.bootstrap_servers@, "fransson-destination-metadata"@), "client.id"@, config.client_id),
        config.security_protocol,
        config.sasl,
        password,
    );
    lemma_destination_names();
    lemma_reserved_destination(config.properties);
    lemma_properties_set(before, config.properties.keys(), config.properties@);
}

/// The destination's admin client is set up as the destination is configured.
pub proof fn law_admin_is_as_configured(config: DestinationKafkaConfig, password: Seq<char>)
    requires
        unreserved(config.properties, config::destination_reserved()),
    ensures
        ({
            let settings = admin_settings(config, password);
            &&& settings.contains_key("bootstrap.servers"@) && settings["bootstrap.servers"@] == config.bootstrap_servers@
            &&& match config.client_id {
                Some(id) => settings.contains_key("client.id"@) && settings["client.id"@] == id@,
                None => !settings.contains_key("client.id"@),
            }
            &&& match config.security_protocol {
                Some(protocol) => settings.contains_key("security.protocol"@)
                    && settings["security.protocol"@] == protocol@,
                None => !settings.contains_key("security.protocol"@),
            }
            &&& match config.sasl {
                Some(sasl) => {
                    &&& settings.contains_key("sasl.mechanism"@) && settings["sasl.mechanism"@]
                        == sasl.mechanism@
                    &&& settings.contains_key("sasl.username"@) && settings["sasl.username"@]
                        == sasl.username@
                    &&& settings.contains_key("sasl.password"@) && settings["sasl.password"@]
                        == password
                },
                None => {
                    &&& !settings.contains_key("sasl.mechanism"@)
                    &&& !settings.contains_key("sasl.username"@)
                    &&& !settings.contains_key("sasl.password"@)
                },
            }
            &&& forall|key: Seq<char>| #[trigger]
                config.properties@.contains_key(key) ==> settings.contains_key(key)
                    && settings[key] == config.properties@[key]@
            &&& forall|key: Seq<char>| #[trigger]
                settings.contains_key(key) ==> {
                    ||| config.properties@.contains_key(key)
                    ||| key == "bootstrap.servers"@ || key == "client.id"@
                    ||| key == "security.protocol"@ || key == "sasl.mechanism"@
                    ||| key == "sasl.username"@ || key == "sasl.password"@
                }
        }),
{
    let before = with_security(
        with_optional(no_settings().insert("bootstrap.servers"@, config.bootstrap_servers@), "client.id"@, config.client_id),
        config.security_protocol,
        config.sasl,
        password,
    );
    lemma_destination_names();
    lemma_reserved_destination(config.properties);
    lemma_properties_set(before, config.properties.keys(), config.properties@);
}

/// The producer for clones and restores is set up as the destination is
/// configured. Its records are acknowledged by all replicas, written exactly
/// once, and compressed as configured or else with lz4.
pub proof fn law_producer_is_as_configured(config: DestinationKafkaConfig, password: Seq<char>)
    requires
        unreserved(config.properties, config::destination_reserved()),
    ensures
        ({
            let settings = producer_settings(config, password);
            &&& settings.contains_key("bootstrap.servers"@) && settings["bootstrap.servers"@] == config.bootstrap_servers@
            &&& settings.contains_key("acks"@) && settings["acks"@] == "all"@
            &&& settings.contains_key("enable.idempotence"@) && settings["enable.idempotence"@] == "true"@
            &&& settings.contains_key("compression.type"@)
            &&& !config.properties@.contains_key("compression.type"@)
                ==> settings["compression.type"@] == "lz4"@
            &&& match config.client_id {
                Some(id) => settings.contains_key("client.id"@) && settings["client.id"@] == id@,
                None => !settings.contains_key("client.id"@),
            }
            &&& match config.security_protocol {
                Some(protocol) => settings.contains_key("security.protocol"@)
                    && settings["security.protocol"@] == protocol@,
                None => !settings.contains_key("security.protocol"@),
            }
            &&& match config.sasl {
                Some(sasl) => {
                    &&& settings.contains_key("sasl.mechanism"@) && settings["sasl.mechanism"@]
                        == sasl.mechanism@
                    &&& settings.contains_key("sasl.username"@) && settings["sasl.username"@]
                        == sasl.username@
                    &&& settings.contains_key("sasl.password"@) && settings["sasl.password"@]
                        == password
                },
                None => {
                    &&& !settings.contains_key("sasl.mechanism"@)
                    &&& !settings.contains_key("sasl.username"@)
                    &&& !settings.contains_key("sasl.password"@)
                },
            }
            &&& forall|key: Seq<char>| #[trigger]
                config.properties@.contains_key(key) ==> settings.contains_key(key)
                    && settings[key] == config.properties@[key]@
            &&& forall|key: Seq<char>| #[trigger]
                settings.contains_key(key) ==> {
                    ||| config.properties@.contains_key(key)
                    ||| key == "bootstrap.servers"@ || key == "acks"@
                    ||| key == "enable.idempotence"@ || key == "compression.type"@
                    ||| key == "client.id"@ || key == "security.protocol"@
                    ||| key == "sasl.mechanism"@ || key == "sasl.username"@
                    ||| key == "sasl.password"@
                }
        }),
{
    let before = with_security(
        with_optional(
            no_settings().insert("bootstrap.servers"@, config.bootstrap_servers@).insert(
                "acks"@,
                "all"@,
            ).insert("enable.idempotence"@, "true"@).insert("compression.type"@, "lz4"@), "client.id"@, config.client_id),
        config.security_protocol,
        config.sasl,
        password,
    );
    lemma_destination_names();
    lemma_reserved_destination(config.properties);
    lemma_properties_set(before, config.properties.keys(), config.properties@);
}

/// The producer for streams is set up as the destination is configured, waits
/// through outages, and compresses as configured or else with lz4.
pub proof fn law_stream_producer_is_as_configured(config: DestinationKafkaConfig, password: Seq<char>)
    requires
        unreserved(config.properties, config::destination_reserved()),
    ensures
        ({
            let settings = stream_producer_settings(config, password);
            &&& settings.contains_key("bootstrap.servers"@) && settings["bootstrap.servers"@] == config.bootstrap_servers@
            &&& settings.contains_key("acks"@) && settings["acks"@] == "all"@
            &&& settings.contains_key("enable.idempotence"@) && settings["enable.idempotence"@] == "true"@
            &&& settings.contains_key("message.send.max.retries"@) && settings["message.send.max.retries"@] == "2147483647"@
            &&& settings.contains_key("message.timeout.ms"@) && settings["message.timeout.ms"@] == "0"@
            &&& settings.contains_key("max.in.flight.requests.per.connection"@) && settings["max.in.flight.requests.per.connection"@] == "5"@
            &&& settings.contains_key("compression.type"@)
            &&& !config.properties@.contains_key("compression.type"@)
                ==> settings["compression.type"@] == "lz4"@
            &&& match config.client_id {
                Some(id) => settings.contains_key("client.id"@) && settings["client.id"@] == id@,
                None => !settings.contains_key("client.id"@),
            }
            &&& match config.security_protocol {
                Some(protocol) => settings.contains_key("security.protocol"@)
                    && settings["security.protocol"@] == protocol@,
                None => !settings.contains_key("security.protocol"@),
            }
            &&& match config.sasl {
                Some(sasl) => {
                    &&& settings.contains_key("sasl.mechanism"@) && settings["sasl.mechanism"@]
                        == sasl.mechanism@
                    &&& settings.contains_key("sasl.username"@) && settings["sasl.username"@]
                        == sasl.username@
                    &&& settings.contains_key("sasl.password"@) && settings["sasl.password"@]
                        == password
                },
                None => {
                    &&& !settings.contains_key("sasl.mechanism"@)
                    &&& !settings.contains_key("sasl.username"@)
                    &&& !settings.contains_key("sasl.password"@)
                },
            }
            &&& forall|key: Seq<char>| #[trigger]
                config.properties@.contains_key(key) ==> settings.contains_key(key)
                    && settings[key] == config.properties@[key]@
            &&& forall|key: Seq<char>| #[trigger]
                settings.contains_key(key) ==> {
                    ||| config.properties@.contains_key(key)
                    ||| key == "bootstrap.servers"@ || key == "acks"@
                    ||| key == "enable.idempotence"@ || key == "message.send.max.retries"@
                    ||| key == "message.timeout.ms"@ || key == "max.in.flight.requests.per.connection"@
                    ||| key == "compression.type"@ || key == "client.id"@
                    ||| key == "security.protocol"@ || key == "sasl.mechanism"@
                    ||| key == "sasl.username"@ || key == "sasl.password"@
                }
        }),
{
    let before = with_security(
        with_optional(
            no_settings().insert("bootstrap.servers"@, config.bootstrap_servers@).insert(
                "compression.type"@,
                "lz4"@,
            ), "client.id"@, config.client_id),
        config.security_protocol,
        config.sasl,
        password,
    );
    lemma_destination_names();
    lemma_reserved_destination(config.properties);
    lemma_properties_set(before, config.properties.keys(), config.properties@);
}

} // verus!
