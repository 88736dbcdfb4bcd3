//! Destination topics: what the configuration asks of each of them.

use crate::config::{AppConfig, DestinationTopicConfig};
use crate::failure;
use crate::failure::{fail, Failure, FailureView};
use crate::text;
use crate::text_map;
use crate::text_map::TextMap;
use vstd::prelude::*;

verus! {

/// A topic of a source.
#[derive(Debug)]
pub struct SourceTopicRef {
    pub instance: String,
    pub topic: String,
}

/// The source and the topic of a reference.
#[verifier::ext_equal]
pub struct ReferenceView {
    pub instance: Seq<char>,
    pub topic: Seq<char>,
}

impl View for SourceTopicRef {
    type V = ReferenceView;

    open spec fn view(&self) -> ReferenceView {
        ReferenceView { instance: self.instance@, topic: self.topic@ }
    }
}

/// How a topic's records are transferred.
#[derive(Debug, Clone, Copy, PartialEq, Eq, Structural)]
pub enum TransferKind {
    Clone,
    Stream,
}

/// A transfer from a source topic into a destination topic.
#[derive(Debug)]
pub struct TransferPlan {
    pub destination_topic: String,
    pub source: SourceTopicRef,
    pub kind: TransferKind,
}

/// A transfer's texts.
#[verifier::ext_equal]
pub struct TransferView {
    pub destination_topic: Seq<char>,
    pub source: ReferenceView,
    pub kind: TransferKind,
}

impl View for TransferPlan {
    type V = TransferView;

    open spec fn view(&self) -> TransferView {
        TransferView {
            destination_topic: self.destination_topic@,
            source: self.source@,
            kind: self.kind,
        }
    }
}

/// What is done with a topic that no data is transferred into.
#[derive(Debug, Clone, Copy, PartialEq, Eq, Structural)]
pub enum StaticTopicKind {
    Manage,
    Empty,
}

/// A topic that no data is transferred into.
#[derive(Debug, Clone, Copy, PartialEq, Eq, Structural)]
pub struct StaticTopicPlan {
    pub partitions: i32,
    pub kind: StaticTopicKind,
}

/// A topic that is filled from an archive.
#[derive(Debug)]
pub struct RestorePlan {
    pub archive: String,
}

/// A destination topic and where its data comes from.
#[derive(Debug)]
pub struct ManagedTopic {
    pub name: String,
    pub force: bool,
    pub replication_factor: Option<i32>,
    pub config: TextMap<String>,
    pub static_topic: Option<StaticTopicPlan>,
    pub transfer: Option<TransferPlan>,
    pub restore: Option<RestorePlan>,
}

/// A destination topic's texts and numbers.
#[verifier::ext_equal]
pub struct TopicView {
    pub name: Seq<char>,
    pub force: bool,
    pub replication_factor: Option<i32>,
    pub config_keys: Seq<Seq<char>>,
    pub config: Map<Seq<char>, String>,
    pub static_topic: Option<StaticTopicPlan>,
    pub transfer: Option<TransferView>,
    pub restore: Option<Seq<char>>,
}

impl View for ManagedTopic {
    type V = TopicView;

    open spec fn view(&self) -> TopicView {
        TopicView {
            name: self.name@,
            force: self.force,
            replication_factor: self.replication_factor,
            config_keys: self.config.keys(),
            config: self.config@,
            static_topic: self.static_topic,
            transfer: match self.transfer {
                Some(transfer) => Some(transfer@),
                None => None,
            },
            restore: match self.restore {
                Some(restore) => Some(restore.archive@),
                None => None,
            },
        }
    }
}

/// The text of a reference: the source, a colon, the topic.
pub open spec fn reference_text(reference: ReferenceView) -> Seq<char> {
    reference.instance + ":"@ + reference.topic
}

impl SourceTopicRef {
    /// The text of the reference.
    pub fn display(&self) -> (r: String)
        ensures
            r@ == reference_text(self@),
    {
        text::join3(self.instance.as_str(), ":", self.topic.as_str())
    }
}

impl Clone for SourceTopicRef {
    fn clone(&self) -> (r: Self)
        ensures
            r@ == self@,
    {
        SourceTopicRef { instance: self.instance.clone(), topic: self.topic.clone() }
    }
}

impl Clone for TransferPlan {
    fn clone(&self) -> (r: Self)
        ensures
            r@ == self@,
    {
        TransferPlan {
            destination_topic: self.destination_topic.clone(),
            source: self.source.clone(),
            kind: self.kind,
        }
    }
}

/// What a reference text stands for: what is in front of its first colon, and
/// what is behind it.
pub open spec fn reference_of(value: Seq<char>) -> ReferenceView {
    let at = text::first_position(value, ':');
    ReferenceView { instance: value.take(at), topic: value.skip(at + 1) }
}

/// What is wrong with a reference text.
pub open spec fn reference_fault(value: Seq<char>) -> Option<Seq<char>> {
    let at = text::first_position(value, ':');
    if at == value.len() {
        Some("expected format <source>:<topic>, got "@ + value)
    } else if at == 0 || at + 1 == value.len() {
        Some("expected non-empty <source>:<topic>, got "@ + value)
    } else {
        None
    }
}

/// Reads a reference to a source topic.
pub fn parse_source_topic_ref(value: &str) -> (r: Result<SourceTopicRef, Failure>)
    ensures
        match r {
            Ok(reference) => reference_fault(value@) is None && reference@ == reference_of(value@),
            Err(failure) => reference_fault(value@) is Some && failure@ == failure::failed(
                reference_fault(value@)->0,
            ),
        },
{
    let at = match text::find_char(value, ':') {
        Some(at) => at,
        None => {
            return Err(fail(text::join2("expected format <source>:<topic>, got ", value)));
        },
    };
    let len = value.unicode_len();
    if at == 0 || at + 1 == len {
        return Err(fail(text::join2("expected non-empty <source>:<topic>, got ", value)));
    }
    let instance = value.substring_char(0, at);
    let topic = value.substring_char(at + 1, len);
    assert(instance@ == value@.take(at as int));
    assert(topic@ == value@.skip(at + 1));
    Ok(SourceTopicRef { instance: instance.to_owned(), topic: topic.to_owned() })
}

/// A reference text that is accepted is the text of what it stands for.
pub proof fn law_reference_text_is_kept(value: Seq<char>)
    requires
        reference_fault(value) is None,
    ensures
        reference_text(reference_of(value)) == value,
{
    reveal_strlit(":");
    text::lemma_first_position(value, ':');
    assert(reference_text(reference_of(value)) =~= value);
}

/// A reference with a source name that is neither empty nor holds a colon, and
/// with a topic that is not empty, is read back from its text.
pub proof fn law_reference_is_read_back(reference: ReferenceView)
    requires
        reference.instance.len() > 0,
        !reference.instance.contains(':'),
        reference.topic.len() > 0,
    ensures
        reference_fault(reference_text(reference)) is None,
        reference_of(reference_text(reference)) == reference,
{
    reveal_strlit(":");
    let value = reference_text(reference);
    let at = reference.instance.len() as int;
    let found = text::first_position(value, ':');
    text::lemma_first_position(value, ':');
    assert(value[at] == ':');
    assert(value.contains(':'));
    if found < at {
        assert(value[found] == reference.instance[found]);
    }
    assert(found == at);
    assert(value.take(at) =~= reference.instance);
    assert(value.skip(at + 1) =~= reference.topic);
}

/// A path taken relative to a directory: an absolute path stands for itself.
/// Without a directory the current one is meant.
pub open spec fn resolved_path(directory: Option<Seq<char>>, value: Seq<char>) -> Seq<char> {
    let base = match directory {
        Some(directory) => directory,
        None => "."@,
    };
    if value.len() > 0 && value[0] == '/' {
        value
    } else if base.len() == 0 || base.last() == '/' {
        base + value
    } else {
        base + "/"@ + value
    }
}

/// Takes a configured path relative to the directory of the configuration file.
pub fn resolve_config_path(directory: Option<&str>, value: &str) -> (r: String)
    ensures
        r@ == resolved_path(
            match directory {
                Some(directory) => Some(directory@),
                None => None,
            },
            value@,
        ),
{
    let base = match directory {
        Some(directory) => directory,
        None => ".",
    };
    if value.unicode_len() > 0 && value.get_char(0) == '/' {
        return value.to_owned();
    }
    let len = base.unicode_len();
    if len == 0 || base.get_char(len - 1) == '/' {
        text::join2(base, value)
    } else {
        text::join3(base, "/", value)
    }
}

/// How many modes a topic is configured with.
pub open spec fn mode_count(topic: DestinationTopicConfig) -> int {
    let one = |set: bool|
        if set {
            1int
        } else {
            0int
        };
    one(topic.manage is Some) + one(topic.empty is Some) + one(topic.clone is Some) + one(
        topic.stream is Some,
    ) + one(topic.restore is Some)
}

/// What a topic's transfer is called, its kind, and the reference to its
/// source.
#[verifier::ext_equal]
pub struct RequestView {
    pub label: Seq<char>,
    pub kind: TransferKind,
    pub source: Seq<char>,
}

/// The transfer that a topic is configured with.
pub open spec fn transfer_of(topic: DestinationTopicConfig) -> Option<RequestView> {
    if topic.clone is Some {
        Some(
            RequestView {
                label: "clone"@,
                kind: TransferKind::Clone,
                source: topic.clone->0.source@,
            },
        )
    } else if topic.stream is Some {
        Some(
            RequestView {
                label: "stream"@,
                kind: TransferKind::Stream,
                source: topic.stream->0.source@,
            },
        )
    } else {
        None
    }
}

/// A topic of the same name stands among the first `count`.
pub open spec fn named_before(
    topics: Seq<DestinationTopicConfig>,
    count: int,
    name: Seq<char>,
) -> bool {
    exists|j: int| 0 <= j < count && (#[trigger] topics[j]).name@ == name
}

/// The first of the first `count` topics that a source topic feeds.
pub open spec fn fed_before(
    topics: Seq<DestinationTopicConfig>,
    count: int,
    source: Seq<char>,
) -> Option<Seq<char>>
    decreases count,
{
    if count <= 0 {
        None
    } else {
        match fed_before(topics, count - 1, source) {
            Some(name) => Some(name),
            None => if transfer_of(topics[count - 1]) is Some && transfer_of(
                topics[count - 1],
            )->0.source == source {
                Some(topics[count - 1].name@)
            } else {
                None
            },
        }
    }
}

/// What is wrong with the transfer of the topic behind the first `at`.
pub open spec fn transfer_fault(config: AppConfig, at: int) -> Option<FailureView> {
    let topic = config.topics@[at];
    match transfer_of(topic) {
        Some(RequestView { label, kind: _, source }) => if reference_fault(source) is Some {
            Some(
                FailureView {
                    message: "invalid "@ + label + " source reference "@ + source,
                    cause: reference_fault(source),
                },
            )
        } else if !config.sources@.contains_key(reference_of(source).instance) {
            Some(
                failure::failed(
                    label + " references unknown source "@ + reference_of(source).instance,
                ),
            )
        } else {
            match fed_before(config.topics@, at, source) {
                Some(existing) => Some(
                    failure::failed(
                        "source topic "@ + source + " cannot feed both destination topics "@
                            + existing + " and "@ + topic.name@,
                    ),
                ),
                None => None,
            }
        },
        None => None,
    }
}

/// What is wrong with the topic behind the first `at`.
pub open spec fn definition_fault(config: AppConfig, at: int) -> Option<FailureView> {
    let topic = config.topics@[at];
    if named_before(config.topics@, at, topic.name@) {
        Some(failure::failed("duplicate destination topic definition for "@ + topic.name@))
    } else if mode_count(topic) != 1 {
        Some(
            failure::failed(
                "destination topic "@ + topic.name@
                    + " must configure exactly one of manage, empty, clone, stream, and restore"@,
            ),
        )
    } else {
        transfer_fault(config, at)
    }
}

/// The first thing wrong with the first `count` topics.
pub open spec fn definitions_fault(config: AppConfig, count: int) -> Option<FailureView>
    decreases count,
{
    if count <= 0 {
        None
    } else {
        failure::first(definitions_fault(config, count - 1), definition_fault(config, count - 1))
    }
}

/// What a topic's definition asks for.
pub open spec fn managed(topic: DestinationTopicConfig, directory: Option<Seq<char>>) -> TopicView {
    TopicView {
        name: topic.name@,
        force: topic.force,
        replication_factor: topic.replication_factor,
        config_keys: topic.config.keys(),
        config: topic.config@,
        static_topic: if topic.manage is Some {
            Some(
                StaticTopicPlan {
                    partitions: topic.manage->0.partitions,
                    kind: StaticTopicKind::Manage,
                },
            )
        } else if topic.empty is Some {
            Some(
                StaticTopicPlan {
                    partitions: topic.empty->0.partitions,
                    kind: StaticTopicKind::Empty,
                },
            )
        } else {
            None
        },
        transfer: match transfer_of(topic) {
            Some(RequestView { label: _, kind, source }) => Some(
                TransferView {
                    destination_topic: topic.name@,
                    source: reference_of(source),
                    kind,
                },
            ),
            None => None,
        },
        restore: if topic.restore is Some {
            Some(resolved_path(directory, topic.restore->0.archive@))
        } else {
            None
        },
    }
}

fn is_named_before(topics: &Vec<DestinationTopicConfig>, count: usize, name: &str) -> (r: bool)
    requires
        count <= topics@.len(),
    ensures
        r == named_before(topics@, count as int, name@),
{
    let mut i: usize = 0;
    while i < count
        invariant
            i <= count <= topics@.len(),
            forall|j: int| 0 <= j < i ==> (#[trigger] topics@[j]).name@ != name@,
        decreases count - i,
    {
        if text::same(topics[i].name.as_str(), name) {
            return true;
        }
        i = i + 1;
    }
    false
}

fn source_reference(topic: &DestinationTopicConfig) -> (r: Option<(&'static str, TransferKind, &str)>)
    ensures
        match r {
            Some((label, kind, source)) => transfer_of(*topic) == Some(
                RequestView { label: label@, kind, source: source@ },
            ),
            None => transfer_of(*topic) is None,
        },
{
    if let Some(clone) = &topic.clone {
        Some(("clone", TransferKind::Clone, clone.source.as_str()))
    } else if let Some(stream) = &topic.stream {
        Some(("stream", TransferKind::Stream, stream.source.as_str()))
    } else {
        None
    }
}

proof fn lemma_first_fed(
    topics: Seq<DestinationTopicConfig>,
    at: int,
    count: int,
    source: Seq<char>,
)
    requires
        0 <= at < count,
        fed_before(topics, at, source) is None,
        transfer_of(topics[at]) is Some,
        transfer_of(topics[at])->0.source == source,
    ensures
        fed_before(topics, count, source) == Some(topics[at].name@),
    decreases count,
{
    if at < count - 1 {
        lemma_first_fed(topics, at, count - 1, source);
    }
}

fn first_fed<'a>(topics: &'a Vec<DestinationTopicConfig>, count: usize, source: &str) -> (r: Option<
    &'a str,
>)
    requires
        count <= topics@.len(),
    ensures
        match r {
            Some(name) => fed_before(topics@, count as int, source@) == Some(name@),
            None => fed_before(topics@, count as int, source@) is None,
        },
{
    let mut i: usize = 0;
    while i < count
        invariant
            i <= count <= topics@.len(),
            fed_before(topics@, i as int, source@) is None,
        decreases count - i,
    {
        if let Some((_, _, other)) = source_reference(&topics[i]) {
            if text::same(other, source) {
                proof {
                    lemma_first_fed(topics@, i as int, count as int, source@);
                }
                return Some(topics[i].name.as_str());
            }
        }
        i = i + 1;
    }
    None
}

fn resolve_transfer(config: &AppConfig, at: usize) -> (r: Result<Option<TransferPlan>, Failure>)
    requires
        at < config.topics@.len(),
    ensures
        failure::tells(r, transfer_fault(*config, at as int)),
        r matches Ok(Some(plan)) ==> transfer_of(config.topics@[at as int]) is Some && plan@ == (
        TransferView {
            destination_topic: config.topics@[at as int].name@,
            source: reference_of(transfer_of(config.topics@[at as int])->0.source),
            kind: transfer_of(config.topics@[at as int])->0.kind,
        }),
        r matches Ok(None) ==> transfer_of(config.topics@[at as int]) is None,
{
    let topic = &config.topics[at];
    let (label, kind, reference) = match source_reference(topic) {
        Some(found) => found,
        None => {
            return Ok(None);
        },
    };
    let source = match parse_source_topic_ref(reference) {
        Ok(source) => source,
        Err(failure) => {
            let mut message = text::join3("invalid ", label, " source reference ");
            message.append(reference);
            return Err(Failure { message, cause: Some(failure.message) });
        },
    };
    if !config.sources.contains_key(source.instance.as_str()) {
        return Err(
            fail(text::join3(label, " references unknown source ", source.instance.as_str())),
        );
    }
    if let Some(existing) = first_fed(&config.topics, at, reference) {
        let mut message = text::join5(
            "source topic ",
            reference,
            " cannot feed both destination topics ",
            existing,
            " and ",
        );
        message.append(topic.name.as_str());
        return Err(fail(message));
    }
    Ok(Some(TransferPlan { destination_topic: topic.name.clone(), source, kind }))
}

fn count_modes(topic: &DestinationTopicConfig) -> (r: u8)
    ensures
        r == mode_count(*topic),
{
    let mut count: u8 = 0;
    if topic.manage.is_some() {
        count = count + 1;
    }
    if topic.empty.is_some() {
        count = count + 1;
    }
    if topic.clone.is_some() {
        count = count + 1;
    }
    if topic.stream.is_some() {
        count = count + 1;
    }
    if topic.restore.is_some() {
        count = count + 1;
    }
    count
}

fn copy_texts(map: &TextMap<String>) -> (r: TextMap<String>)
    ensures
        r.keys() == map.keys(),
        r@ == map@,
{
    let r = map.clone();
    assert(r.values() =~= map.values());
    proof {
        text_map::lemma_same_entries(*map, r);
    }
    r
}

fn resolve_topic(config: &AppConfig, at: usize, directory: Option<&str>) -> (r: Result<
    ManagedTopic,
    Failure,
>)
    requires
        at < config.topics@.len(),
    ensures
        failure::tells(r, definition_fault(*config, at as int)),
        r matches Ok(topic) ==> topic@ == managed(
            config.topics@[at as int],
            match directory {
                Some(directory) => Some(directory@),
                None => None,
            },
        ),
{
    let topic = &config.topics[at];
    if is_named_before(&config.topics, at, topic.name.as_str()) {
        return Err(
            fail(
                text::join2("duplicate destination topic definition for ", topic.name.as_str()),
            ),
        );
    }
    if count_modes(topic) != 1 {
        return Err(
            fail(
                text::join3(
                    "destination topic ",
                    topic.name.as_str(),
                    " must configure exactly one of manage, empty, clone, stream, and restore",
                ),
            ),
        );
    }
    let static_topic = if let Some(manage) = &topic.manage {
        Some(StaticTopicPlan { partitions: manage.partitions, kind: StaticTopicKind::Manage })
    } else if let Some(empty) = &topic.empty {
        Some(StaticTopicPlan { partitions: empty.partitions, kind: StaticTopicKind::Empty })
    } else {
        None
    };
    let transfer = match resolve_transfer(config, at) {
        Ok(transfer) => transfer,
        Err(failure) => {
            return Err(failure);
        },
    };
    let restore = match &topic.restore {
        Some(restore) => Some(
            RestorePlan { archive: resolve_config_path(directory, restore.archive.as_str()) },
        ),
        None => None,
    };
    Ok(
        ManagedTopic {
            name: topic.name.clone(),
            force: topic.force,
            replication_factor: topic.replication_factor,
            config: copy_texts(&topic.config),
            static_topic,
            transfer,
            restore,
        },
    )
}

proof fn lemma_definitions_fault_stays(config: AppConfig, count: int, all: int)
    requires
        0 <= count <= all,
        definitions_fault(config, count) is Some,
    ensures
        definitions_fault(config, all) == definitions_fault(config, count),
    decreases all,
{
    if count < all {
        lemma_definitions_fault_stays(config, count, all - 1);
    }
}

/// Works out what the configuration asks of each destination topic. Paths are
/// taken relative to the directory of the configuration file.
pub fn resolve_topics(config: &AppConfig, directory: Option<&str>) -> (r: Result<
    Vec<ManagedTopic>,
    Failure,
>)
    ensures
        failure::tells(r, definitions_fault(*config, config.topics@.len() as int)),
        r matches Ok(topics) ==> {
            &&& topics@.len() == config.topics@.len()
            &&& forall|i: int|
                0 <= i < topics@.len() ==> (#[trigger] topics@[i])@ == managed(
                    config.topics@[i],
                    match directory {
                        Some(directory) => Some(directory@),
                        None => None,
                    },
                )
        },
{
    let mut resolved: Vec<ManagedTopic> = Vec::new();
    let mut i: usize = 0;
    while i < config.topics.len()
        invariant
            i <= config.topics@.len(),
            resolved@.len() == i,
            definitions_fault(*config, i as int) is None,
            forall|j: int|
                0 <= j < i ==> (#[trigger] resolved@[j])@ == managed(
                    config.topics@[j],
                    match directory {
                        Some(directory) => Some(directory@),
                        None => None,
                    },
                ),
        decreases config.topics@.len() - i,
    {
        proof {
            if definitions_fault(*config, i + 1) is Some {
                lemma_definitions_fault_stays(*config, i + 1, config.topics@.len() as int);
            }
        }
        match resolve_topic(config, i, directory) {
            Ok(topic) => {
                resolved.push(topic);
            },
            Err(failure) => {
                return Err(failure);
            },
        }
        i = i + 1;
    }
    Ok(resolved)
}

proof fn lemma_definition_clean(config: AppConfig, count: int, i: int)
    requires
        definitions_fault(config, count) is None,
        0 <= i < count,
    ensures
        definition_fault(config, i) is None,
    decreases count,
{
    if i < count - 1 {
        lemma_definition_clean(config, count - 1, i);
    }
}

/// In a resolved configuration every topic has exactly one mode: its plan holds
/// exactly one of a static topic, a transfer and a restore.
pub proof fn law_topics_have_one_mode(config: AppConfig, directory: Option<Seq<char>>, i: int)
    requires
        definitions_fault(config, config.topics@.len() as int) is None,
        0 <= i < config.topics@.len(),
    ensures
        mode_count(config.topics@[i]) == 1,
        ({
            let topic = managed(config.topics@[i], directory);
            ||| topic.static_topic is Some && topic.transfer is None && topic.restore is None
            ||| topic.static_topic is None && topic.transfer is Some && topic.restore is None
            ||| topic.static_topic is None && topic.transfer is None && topic.restore is Some
        }),
{
    lemma_definition_clean(config, config.topics@.len() as int, i);
}

/// In a resolved configuration every destination topic is defined once.
pub proof fn law_topics_are_defined_once(config: AppConfig, i: int, j: int)
    requires
        definitions_fault(config, config.topics@.len() as int) is None,
        0 <= i < j < config.topics@.len(),
    ensures
        config.topics@[i].name@ != config.topics@[j].name@,
{
    lemma_definition_clean(config, config.topics@.len() as int, j);
}

proof fn lemma_fed_before(
    topics: Seq<DestinationTopicConfig>,
    count: int,
    source: Seq<char>,
    i: int,
)
    requires
        fed_before(topics, count, source) is None,
        0 <= i < count,
        transfer_of(topics[i]) is Some,
    ensures
        transfer_of(topics[i])->0.source != source,
    decreases count,
{
    if i < count - 1 {
        lemma_fed_before(topics, count - 1, source, i);
    }
}

/// In a resolved configuration every source topic feeds at most one destination
/// topic.
pub proof fn law_source_topics_are_mapped_once(
    config: AppConfig,
    directory: Option<Seq<char>>,
    i: int,
    j: int,
)
    requires
        definitions_fault(config, config.topics@.len() as int) is None,
        0 <= i < j < config.topics@.len(),
        managed(config.topics@[i], directory).transfer is Some,
        managed(config.topics@[j], directory).transfer is Some,
    ensures
        managed(config.topics@[i], directory).transfer->0.source != managed(
            config.topics@[j],
            directory,
        ).transfer->0.source,
{
    let count = config.topics@.len() as int;
    lemma_definition_clean(config, count, i);
    lemma_definition_clean(config, count, j);
    let first = transfer_of(config.topics@[i])->0.source;
    let second = transfer_of(config.topics@[j])->0.source;
    lemma_fed_before(config.topics@, j, second, i);
    law_reference_text_is_kept(first);
    law_reference_text_is_kept(second);
}

/// In a resolved configuration every transfer is from a configured source.
pub proof fn law_transfers_are_from_configured_sources(
    config: AppConfig,
    directory: Option<Seq<char>>,
    i: int,
)
    requires
        definitions_fault(config, config.topics@.len() as int) is None,
        0 <= i < config.topics@.len(),
        managed(config.topics@[i], directory).transfer is Some,
    ensures
        config.sources@.contains_key(
            managed(config.topics@[i], directory).transfer->0.source.instance,
        ),
{
    lemma_definition_clean(config, config.topics@.len() as int, i);
}

/// A reference is accepted exactly where a colon stands in it with something in
/// front of the first one and something behind it, and stands for just that.
pub proof fn law_references_are_split_at_the_first_colon(value: Seq<char>, at: int)
    requires
        0 <= at < value.len(),
        value[at] == ':',
        forall|i: int| 0 <= i < at ==> #[trigger] value[i] != ':',
    ensures
        reference_fault(value) is None <==> 0 < at < value.len() - 1,
        reference_of(value).instance == value.subrange(0, at),
        reference_of(value).topic == value.subrange(at + 1, value.len() as int),
{
    text::lemma_first_position(value, ':');
    let found = text::first_position(value, ':');
    assert(value.contains(value[at]));
    assert(found == at) by {
        if found < at {
            assert(value[found] != ':');
        }
        if at < found {
            assert(value[at] != ':');
        }
    }
    assert(value.take(at) =~= value.subrange(0, at));
    assert(value.skip(at + 1) =~= value.subrange(at + 1, value.len() as int));
}

/// A reference without a colon is refused.
pub proof fn law_references_need_a_colon(value: Seq<char>)
    requires
        !value.contains(':'),
    ensures
        reference_fault(value) is Some,
{
    text::lemma_first_position(value, ':');
}

/// An absolute path stands for itself; any other is taken below the directory, or
/// below the current one where there is none, with one slash between them.
pub proof fn law_paths_are_taken_below_the_directory(directory: Seq<char>, value: Seq<char>)
    ensures
        value.len() > 0 && value[0] == '/' ==> resolved_path(Some(directory), value) == value
            && resolved_path(None, value) == value,
        !(value.len() > 0 && value[0] == '/') ==> {
            &&& directory.len() > 0 && directory.last() != '/' ==> resolved_path(
                Some(directory),
                value,
            ) == directory + seq!['/'] + value
            &&& directory.len() == 0 || directory.last() == '/' ==> resolved_path(
                Some(directory),
                value,
            ) == directory + value
            &&& resolved_path(None, value) == seq!['.', '/'] + value
        },
{
    reveal_strlit("/");
    reveal_strlit(".");
    assert("/"@ =~= seq!['/']);
    assert(("."@ + "/"@) =~= seq!['.', '/']);
}

/// A topic asks for what it is configured with: its name, its replication, its
/// settings, and exactly the mode that is given, with the transfer's kind and
/// source as they are written and the archive below the configuration's directory.
pub proof fn law_topics_ask_for_what_is_configured(
    topic: DestinationTopicConfig,
    directory: Option<Seq<char>>,
)
    requires
        (if topic.manage is Some { 1int } else { 0int }) + (if topic.empty is Some { 1int } else {
            0int
        }) + (if topic.clone is Some { 1int } else { 0int }) + (if topic.stream is Some {
            1int
        } else {
            0int
        }) + (if topic.restore is Some { 1int } else { 0int }) == 1,
    ensures
        mode_count(topic) == 1,
        ({
            let asked = managed(topic, directory);
            &&& asked.name == topic.name@
            &&& asked.force == topic.force
            &&& asked.replication_factor == topic.replication_factor
            &&& asked.config == topic.config@
            &&& asked.config_keys == topic.config.keys()
            &&& asked.static_topic is Some <==> topic.manage is Some || topic.empty is Some
            &&& topic.manage matches Some(manage) ==> asked.static_topic == Some(
                StaticTopicPlan { partitions: manage.partitions, kind: StaticTopicKind::Manage },
            )
            &&& topic.empty matches Some(empty) ==> asked.static_topic == Some(
                StaticTopicPlan { partitions: empty.partitions, kind: StaticTopicKind::Empty },
            )
            &&& asked.transfer is Some <==> topic.clone is Some || topic.stream is Some
            &&& topic.clone matches Some(clone) ==> asked.transfer == Some(
                TransferView {
                    destination_topic: topic.name@,
                    source: reference_of(clone.source@),
                    kind: TransferKind::Clone,
                },
            )
            &&& topic.stream matches Some(stream) ==> asked.transfer == Some(
                TransferView {
                    destination_topic: topic.name@,
                    source: reference_of(stream.source@),
                    kind: TransferKind::Stream,
                },
            )
            &&& asked.restore is Some <==> topic.restore is Some
            &&& topic.restore matches Some(restore) ==> asked.restore == Some(
                resolved_path(directory, restore.archive@),
            )
        }),
{
}

/// A topic's modes are counted: one mode is exactly one of the five.
pub proof fn law_modes_are_counted(topic: DestinationTopicConfig)
    ensures
        mode_count(topic) == (if topic.manage is Some { 1int } else { 0int }) + (
        if topic.empty is Some { 1int } else { 0int }) + (if topic.clone is Some { 1int } else {
            0int
        }) + (if topic.stream is Some { 1int } else { 0int }) + (if topic.restore is Some {
            1int
        } else {
            0int
        }),
{
}

proof fn lemma_fed(topics: Seq<DestinationTopicConfig>, count: int, source: Seq<char>)
    requires
        0 <= count <= topics.len(),
    ensures
        fed_before(topics, count, source) is None <==> forall|j: int|
            0 <= j < count ==> !(transfer_of(#[trigger] topics[j]) is Some && transfer_of(
                topics[j],
            )->0.source == source),
    decreases count,
{
    if count > 0 {
        lemma_fed(topics, count - 1, source);
        if fed_before(topics, count, source) is None {
            assert forall|j: int| 0 <= j < count implies !(transfer_of(
                #[trigger] topics[j],
            ) is Some && transfer_of(topics[j])->0.source == source) by {
                if j == count - 1 {
                }
            }
        } else if fed_before(topics, count - 1, source) is None {
            assert(transfer_of(topics[count - 1]) is Some);
        }
    }
}

/// Topics are well defined exactly where each has a name of its own and one mode,
/// and each clone or stream is from a configured source and from a source topic
/// that no earlier one is from.
pub proof fn law_definitions_are_sound(config: AppConfig, count: int)
    requires
        0 <= count <= config.topics@.len(),
    ensures
        definitions_fault(config, count) is None <==> forall|i: int|
            0 <= i < count ==> {
                let topic = #[trigger] config.topics@[i];
                &&& forall|j: int| 0 <= j < i ==> (#[trigger] config.topics@[j]).name@ != topic.name@
                &&& mode_count(topic) == 1
                &&& transfer_of(topic) matches Some(request) ==> {
                    &&& reference_fault(request.source) is None
                    &&& config.sources@.contains_key(reference_of(request.source).instance)
                    &&& forall|j: int|
                        0 <= j < i ==> !(transfer_of(#[trigger] config.topics@[j]) is Some
                            && transfer_of(config.topics@[j])->0.source == request.source)
                }
            },
    decreases count,
{
    if count > 0 {
        law_definitions_are_sound(config, count - 1);
        let last = config.topics@[count - 1];
        if transfer_of(last) is Some {
            lemma_fed(config.topics@, count - 1, transfer_of(last)->0.source);
        }
        let sound = |i: int|
            {
                let topic = config.topics@[i];
                &&& forall|j: int| 0 <= j < i ==> (#[trigger] config.topics@[j]).name@ != topic.name@
                &&& mode_count(topic) == 1
                &&& transfer_of(topic) matches Some(request) ==> {
                    &&& reference_fault(request.source) is None
                    &&& config.sources@.contains_key(reference_of(request.source).instance)
                    &&& forall|j: int|
                        0 <= j < i ==> !(transfer_of(#[trigger] config.topics@[j]) is Some
                            && transfer_of(config.topics@[j])->0.source == request.source)
                }
            };
        assert(sound(count - 1) <==> definition_fault(config, count - 1) is None);
        if definitions_fault(config, count) is None {
            assert forall|i: int| 0 <= i < count implies {
                let topic = #[trigger] config.topics@[i];
                &&& forall|j: int| 0 <= j < i ==> (#[trigger] config.topics@[j]).name@ != topic.name@
                &&& mode_count(topic) == 1
                &&& transfer_of(topic) matches Some(request) ==> {
                    &&& reference_fault(request.source) is None
                    &&& config.sources@.contains_key(reference_of(request.source).instance)
                    &&& forall|j: int|
                        0 <= j < i ==> !(transfer_of(#[trigger] config.topics@[j]) is Some
                            && transfer_of(config.topics@[j])->0.source == request.source)
                }
            } by {
                if i == count - 1 {
                    assert(sound(i));
                }
            }
        } else if definitions_fault(config, count - 1) is None {
            assert(!sound(count - 1));
            assert(config.topics@[count - 1] == last);
        }
    }
}

/// A topic's transfer is its clone or its stream, of that kind and from the source
/// that is written.
pub proof fn law_transfers_are_as_written(topic: DestinationTopicConfig)
    ensures
        topic.clone matches Some(clone) ==> (transfer_of(topic) matches Some(request)
            && request.kind == TransferKind::Clone && request.source == clone.source@),
        topic.clone is None ==> (topic.stream matches Some(stream) ==> (transfer_of(
            topic,
        ) matches Some(request) && request.kind == TransferKind::Stream && request.source
            == stream.source@)),
        topic.clone is None && topic.stream is None ==> transfer_of(topic) is None,
{
}

} // verus!
