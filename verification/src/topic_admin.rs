//! Creating, deleting and awaiting destination topics.

use crate::failure;
use crate::failure::{fail, Failure, FailureView};
use crate::metadata::{Metadata, MetadataTopic};
use crate::text;
use crate::topics::{ManagedTopic, TopicView};
use vstd::prelude::*;

verus! {

/// What a topic is created with.
#[derive(Debug)]
pub struct NewTopicSettings {
    pub name: String,
    pub partitions: i32,
    pub replication: i32,
    pub config: Vec<(String, String)>,
}

/// The texts of some settings.
pub open spec fn setting_texts(settings: Seq<(String, String)>) -> Seq<(Seq<char>, Seq<char>)> {
    settings.map_values(|setting: (String, String)| (setting.0@, setting.1@))
}

/// The settings that a topic is created with: timestamps as they were created,
/// then whatever is configured, in the order of the names.
pub open spec fn creation_config(topic: TopicView) -> Seq<(Seq<char>, Seq<char>)> {
    seq![("message.timestamp.type"@, "CreateTime"@)] + Seq::new(
        topic.config_keys.len(),
        |i: int| (topic.config_keys[i], topic.config[topic.config_keys[i]]@),
    )
}

/// Works out what a topic is created with. Without a configured replication
/// factor the broker chooses, which is asked for by a negative one.
pub fn new_topic_settings(topic: &ManagedTopic, partitions: i32) -> (r: NewTopicSettings)
    ensures
        r.name@ == topic.name@,
        r.partitions == partitions,
        r.replication == (match topic.replication_factor {
            Some(factor) => factor,
            None => -1i32,
        }),
        setting_texts(r.config@) == creation_config(topic@),
{
    let mut config: Vec<(String, String)> = Vec::new();
    config.push(("message.timestamp.type".to_owned(), "CreateTime".to_owned()));
    let ghost all = creation_config(topic@);
    let mut i: usize = 0;
    assert(setting_texts(config@) =~= all.take(1));
    while i < topic.config.len()
        invariant
            i <= topic.config.keys().len(),
            all == creation_config(topic@),
            setting_texts(config@) == all.take(i + 1),
        decreases topic.config.keys().len() - i,
    {
        let ghost before = config@;
        let key = topic.config.key_at(i).to_owned();
        let value = topic.config.value_at(i).clone();
        let ghost pair = (key@, value@);
        config.push((key, value));
        assert(setting_texts(config@) =~= setting_texts(before).push(pair));
        assert(all.take(i + 2) =~= all.take(i + 1).push(pair));
        i = i + 1;
    }
    assert(all.take(i + 1) =~= all);
    NewTopicSettings {
        name: topic.name.clone(),
        partitions,
        replication: match topic.replication_factor {
            Some(factor) => factor,
            None => -1,
        },
        config,
    }
}

/// What came back when a topic was to be created or deleted: success, an error
/// code in its printed form with the topic's name, or nothing.
#[derive(Debug)]
pub enum AdminOutcome {
    Done,
    Refused { name: String, code: String },
    Nothing,
}

/// What is wrong with what came back for a topic that was to be changed.
pub open spec fn outcome_fault(
    outcome: AdminOutcome,
    change: Seq<char>,
    topic: Seq<char>,
) -> Option<FailureView> {
    match outcome {
        AdminOutcome::Done => None,
        AdminOutcome::Refused { name, code } => Some(
            failure::failed(
                "failed to "@ + change + " destination topic "@ + name@ + ": "@ + code@,
            ),
        ),
        AdminOutcome::Nothing => Some(
            failure::failed(
                "Kafka returned no "@ + change + " result for destination topic "@ + topic,
            ),
        ),
    }
}

fn check_outcome(outcome: AdminOutcome, change: &str, topic: &str) -> (r: Result<(), Failure>)
    ensures
        failure::tells(r, outcome_fault(outcome, change@, topic@)),
{
    match outcome {
        AdminOutcome::Done => Ok(()),
        AdminOutcome::Refused { name, code } => {
            let mut message = text::join5(
                "failed to ",
                change,
                " destination topic ",
                name.as_str(),
                ": ",
            );
            message.append(code.as_str());
            Err(fail(message))
        },
        AdminOutcome::Nothing => {
            let mut message = text::join3(
                "Kafka returned no ",
                change,
                " result for destination topic ",
            );
            message.append(topic);
            Err(fail(message))
        },
    }
}

/// Checks what came back for a topic that was to be created.
pub fn check_created(outcome: AdminOutcome, topic: &str) -> (r: Result<(), Failure>)
    ensures
        failure::tells(r, outcome_fault(outcome, "create"@, topic@)),
{
    check_outcome(outcome, "create", topic)
}

/// Checks what came back for a topic that was to be deleted.
pub fn check_deleted(outcome: AdminOutcome, topic: &str) -> (r: Result<(), Failure>)
    ensures
        failure::tells(r, outcome_fault(outcome, "delete"@, topic@)),
{
    check_outcome(outcome, "delete", topic)
}

/// The partition count of the first topic of a name that has no error.
pub open spec fn live_count(topics: Seq<MetadataTopic>, name: Seq<char>) -> Option<i32>
    decreases topics.len(),
{
    if topics.len() == 0 {
        None
    } else if topics[0].name@ == name && topics[0].error is None {
        Some(topics[0].partitions@.len() as i32)
    } else {
        live_count(topics.drop_first(), name)
    }
}

/// The partition count of the first topic of a name that has no error.
pub fn live_partitions(metadata: &Metadata, topic: &str) -> (r: Option<i32>)
    ensures
        r == live_count(metadata.topics@, topic@),
{
    let mut i: usize = 0;
    assert(metadata.topics@.skip(0) == metadata.topics@);
    while i < metadata.topics.len()
        invariant
            i <= metadata.topics@.len(),
            live_count(metadata.topics@, topic@) == live_count(
                metadata.topics@.skip(i as int),
                topic@,
            ),
        decreases metadata.topics@.len() - i,
    {
        let item = &metadata.topics[i];
        if text::same(item.name.as_str(), topic) && item.error.is_none() {
            return Some(item.partition_count());
        }
        assert(metadata.topics@.skip(i as int).drop_first() == metadata.topics@.skip(i + 1));
        i = i + 1;
    }
    None
}

/// Whether an awaited topic is as expected yet.
#[derive(Debug)]
pub enum Wait {
    Ready,
    Again,
    GiveUp(Failure),
}

/// A topic is as expected: it has its partitions, or it is gone where nothing
/// is expected.
pub open spec fn ready(expected: Option<i32>, live: Option<i32>) -> bool {
    live == expected
}

/// The printed form of an optional number.
pub open spec fn option_number(value: Option<i32>) -> Seq<char> {
    match value {
        Some(value) => "Some("@ + text::decimal(value as int) + ")"@,
        None => "None"@,
    }
}

/// What is said of a topic that has been awaited for too long.
pub open spec fn timeout_text(topic: Seq<char>, expected: Option<i32>, live: Option<i32>) -> Seq<
    char,
> {
    match expected {
        Some(expected) => "timed out waiting for destination topic "@ + topic + " to have "@
            + text::decimal(expected as int) + " partitions; observed "@ + option_number(live),
        None => "timed out waiting for destination topic "@ + topic + " to be deleted"@,
    }
}

fn number_option(value: Option<i32>) -> (r: String)
    ensures
        r@ == option_number(value),
{
    match value {
        Some(value) => text::join3("Some(", text::decimal_i64(value as i64).as_str(), ")"),
        None => "None".to_owned(),
    }
}

/// Decides, on the destination's latest metadata, whether an awaited topic is as
/// expected, is to be awaited further, or has been awaited for too long.
pub fn await_topic(
    metadata: &Metadata,
    topic: &str,
    expected_partitions: Option<i32>,
    timed_out: bool,
) -> (r: Wait)
    ensures
        ({
            let live = live_count(metadata.topics@, topic@);
            match r {
                Wait::Ready => ready(expected_partitions, live),
                Wait::Again => !ready(expected_partitions, live) && !timed_out,
                Wait::GiveUp(failure) => !ready(expected_partitions, live) && timed_out && failure@
                    == failure::failed(timeout_text(topic@, expected_partitions, live)),
            }
        }),
{
    let live = live_partitions(metadata, topic);
    let is_ready = match expected_partitions {
        Some(expected) => match live {
            Some(count) => count == expected,
            None => false,
        },
        None => live.is_none(),
    };
    if is_ready {
        return Wait::Ready;
    }
    if !timed_out {
        return Wait::Again;
    }
    match expected_partitions {
        Some(expected) => {
            let mut message = text::join5(
                "timed out waiting for destination topic ",
                topic,
                " to have ",
                text::decimal_i64(expected as i64).as_str(),
                " partitions; observed ",
            );
            message.append(number_option(live).as_str());
            Wait::GiveUp(fail(message))
        },
        None => Wait::GiveUp(
            fail(
                text::join3(
                    "timed out waiting for destination topic ",
                    topic,
                    " to be deleted",
                ),
            ),
        ),
    }
}

/// A topic is created to keep the times that records were made at, and with every
/// configured setting, each with its configured value, in the order of the names.
pub proof fn law_topics_are_created_as_configured(topic: ManagedTopic)
    ensures
        creation_config(topic@).len() == topic.config.keys().len() + 1,
        creation_config(topic@)[0] == ("message.timestamp.type"@, "CreateTime"@),
        forall|i: int|
            0 <= i < topic.config.keys().len() ==> creation_config(topic@)[i + 1] == (
                #[trigger] topic.config.keys()[i],
                topic.config@[topic.config.keys()[i]]@,
            ),
{
}

/// A change of a topic succeeds exactly where it is done.
pub proof fn law_changes_succeed_when_done(
    outcome: AdminOutcome,
    change: Seq<char>,
    topic: Seq<char>,
)
    ensures
        outcome_fault(outcome, change, topic) is None <==> outcome is Done,
{
}

/// A topic's live partitions are those of the first entry of its name without an
/// error; there are none exactly where there is no such entry.
pub proof fn law_live_topics_are_without_error(topics: Seq<MetadataTopic>, name: Seq<char>)
    ensures
        match live_count(topics, name) {
            Some(count) => exists|i: int|
                0 <= i < topics.len() && (#[trigger] topics[i]).name@ == name
                    && topics[i].error is None && count == topics[i].partitions@.len() as i32
                    && forall|j: int|
                    0 <= j < i ==> !((#[trigger] topics[j]).name@ == name
                        && topics[j].error is None),
            None => forall|j: int|
                0 <= j < topics.len() ==> !((#[trigger] topics[j]).name@ == name
                    && topics[j].error is None),
        },
    decreases topics.len(),
{
    if topics.len() > 0 {
        if topics[0].name@ == name && topics[0].error is None {
            assert(topics[0].name@ == name);
        } else {
            let rest = topics.drop_first();
            law_live_topics_are_without_error(rest, name);
            match live_count(rest, name) {
                Some(count) => {
                    let i = choose|i: int|
                        0 <= i < rest.len() && (#[trigger] rest[i]).name@ == name
                            && rest[i].error is None && count == rest[i].partitions@.len() as i32
                            && forall|j: int|
                            0 <= j < i ==> !((#[trigger] rest[j]).name@ == name
                                && rest[j].error is None);
                    assert(topics[i + 1] == rest[i]);
                    assert forall|j: int| 0 <= j < i + 1 implies !((#[trigger] topics[j]).name@
                        == name && topics[j].error is None) by {
                        if j > 0 {
                            assert(rest[j - 1] == topics[j]);
                        }
                    }
                },
                None => {
                    assert forall|j: int| 0 <= j < topics.len() implies !((
                    #[trigger] topics[j]).name@ == name && topics[j].error is None) by {
                        if j > 0 {
                            assert(rest[j - 1] == topics[j]);
                        }
                    }
                },
            }
        }
    }
}

/// An awaited topic is as expected exactly where it has as many live partitions as
/// are expected, or none where it is to be gone.
pub proof fn law_awaited_topics_have_their_partitions(expected: Option<i32>, live: Option<i32>)
    ensures
        ready(expected, live) <==> (match (expected, live) {
            (Some(expected), Some(live)) => expected == live,
            (None, None) => true,
            _ => false,
        }),
{
}

} // verus!
