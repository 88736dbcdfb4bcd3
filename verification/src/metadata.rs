//! What a cluster says of its topics.

use crate::failure;
use crate::failure::{fail, Failure, FailureView};
use crate::text;
use crate::topics::TransferPlan;
use vstd::prelude::*;

verus! {

/// A partition of a topic, and how many replicas it has.
#[derive(Debug, Clone, Copy)]
pub struct MetadataPartition {
    pub id: i32,
    pub replicas: usize,
}

/// A topic of a cluster. An error is kept in its printed form.
#[derive(Debug)]
pub struct MetadataTopic {
    pub name: String,
    pub error: Option<String>,
    pub partitions: Vec<MetadataPartition>,
}

/// The topics of a cluster.
#[derive(Debug)]
pub struct Metadata {
    pub topics: Vec<MetadataTopic>,
}

/// The position of the first topic of a name, or the number of topics.
pub open spec fn position_of(topics: Seq<MetadataTopic>, name: Seq<char>) -> int
    decreases topics.len(),
{
    if topics.len() == 0 || topics[0].name@ == name {
        0
    } else {
        1 + position_of(topics.drop_first(), name)
    }
}

/// The first topic of a name.
pub open spec fn topic_of(metadata: Metadata, name: Seq<char>) -> Option<MetadataTopic> {
    let at = position_of(metadata.topics@, name);
    if at < metadata.topics@.len() {
        Some(metadata.topics@[at])
    } else {
        None
    }
}

/// What `position_of` finds: a topic of the name, and none before it.
pub proof fn lemma_position_of(topics: Seq<MetadataTopic>, name: Seq<char>)
    ensures
        0 <= position_of(topics, name) <= topics.len(),
        position_of(topics, name) < topics.len() ==> topics[position_of(topics, name)].name@
            == name,
        forall|i: int|
            0 <= i < position_of(topics, name) ==> (#[trigger] topics[i]).name@ != name,
    decreases topics.len(),
{
    if topics.len() > 0 && topics[0].name@ != name {
        let rest = topics.drop_first();
        lemma_position_of(rest, name);
        assert forall|i: int| 0 <= i < position_of(topics, name) implies (
        #[trigger] topics[i]).name@ != name by {
            if i > 0 {
                assert(rest[i - 1] == topics[i]);
            }
        }
    }
}

impl Metadata {
    /// The first topic of a name.
    pub fn find(&self, name: &str) -> (r: Option<&MetadataTopic>)
        ensures
            match r {
                Some(topic) => topic_of(*self, name@) == Some(*topic),
                None => topic_of(*self, name@) is None,
            },
    {
        let mut i: usize = 0;
        assert(self.topics@.skip(0) == self.topics@);
        while i < self.topics.len()
            invariant
                i <= self.topics@.len(),
                position_of(self.topics@, name@) == i + position_of(
                    self.topics@.skip(i as int),
                    name@,
                ),
            decreases self.topics@.len() - i,
        {
            if text::same(self.topics[i].name.as_str(), name) {
                return Some(&self.topics[i]);
            }
            assert(self.topics@.skip(i as int).drop_first() == self.topics@.skip(i + 1));
            i = i + 1;
        }
        None
    }
}

impl MetadataTopic {
    /// The number of partitions.
    pub fn partition_count(&self) -> (r: i32)
        ensures
            r == self.partitions@.len() as i32,
    {
        self.partitions.len() as i32
    }
}

/// What is wrong with a source topic in a cluster's metadata.
pub open spec fn source_topic_fault(metadata: Metadata, name: Seq<char>) -> Option<FailureView> {
    match topic_of(metadata, name) {
        None => Some(failure::failed("source topic "@ + name + " not found in cluster metadata"@)),
        Some(topic) => match topic.error {
            Some(error) => Some(
                failure::failed("source topic "@ + name + " metadata error: "@ + error@),
            ),
            None => None,
        },
    }
}

/// The first thing wrong with the source topics of some transfers.
pub open spec fn source_topics_fault(metadata: Metadata, plans: Seq<TransferPlan>) -> Option<
    FailureView,
>
    decreases plans.len(),
{
    if plans.len() == 0 {
        None
    } else {
        failure::first(
            source_topics_fault(metadata, plans.drop_last()),
            source_topic_fault(metadata, plans.last().source.topic@),
        )
    }
}

proof fn lemma_source_topics_fault_stays(
    metadata: Metadata,
    plans: Seq<TransferPlan>,
    count: int,
)
    requires
        0 <= count <= plans.len(),
        source_topics_fault(metadata, plans.take(count)) is Some,
    ensures
        source_topics_fault(metadata, plans) == source_topics_fault(metadata, plans.take(count)),
    decreases plans.len(),
{
    if count < plans.len() {
        assert(plans.drop_last().take(count) == plans.take(count));
        lemma_source_topics_fault_stays(metadata, plans.drop_last(), count);
    } else {
        assert(plans.take(count) == plans);
    }
}

fn check_source_topic(metadata: &Metadata, name: &str) -> (r: Result<(), Failure>)
    ensures
        failure::tells(r, source_topic_fault(*metadata, name@)),
{
    match metadata.find(name) {
        None => Err(
            fail(text::join3("source topic ", name, " not found in cluster metadata")),
        ),
        Some(topic) => match &topic.error {
            Some(error) => {
                let mut message = text::join3("source topic ", name, " metadata error: ");
                message.append(error.as_str());
                Err(fail(message))
            },
            None => Ok(()),
        },
    }
}

/// Checks that every source topic of some transfers is in a cluster's metadata,
/// without an error.
pub fn check_metadata(metadata: &Metadata, plans: &[TransferPlan]) -> (r: Result<(), Failure>)
    ensures
        failure::tells(r, source_topics_fault(*metadata, plans@)),
{
    let mut i: usize = 0;
    while i < plans.len()
        invariant
            i <= plans@.len(),
            source_topics_fault(*metadata, plans@.take(i as int)) is None,
        decreases plans@.len() - i,
    {
        proof {
            assert(plans@.take(i + 1).drop_last() == plans@.take(i as int));
            if source_topics_fault(*metadata, plans@.take(i + 1)) is Some {
                lemma_source_topics_fault_stays(*metadata, plans@, i + 1);
            }
        }
        if let Err(failure) = check_source_topic(metadata, plans[i].source.topic.as_str()) {
            return Err(failure);
        }
        i = i + 1;
    }
    assert(plans@.take(i as int) == plans@);
    Ok(())
}

/// A topic is found exactly where one of its name is in the metadata, and it is
/// the first of that name.
pub proof fn law_topics_are_found_by_name(metadata: Metadata, name: Seq<char>)
    ensures
        match topic_of(metadata, name) {
            Some(topic) => exists|i: int|
                0 <= i < metadata.topics@.len() && #[trigger] metadata.topics@[i] == topic
                    && topic.name@ == name && forall|j: int|
                    0 <= j < i ==> (#[trigger] metadata.topics@[j]).name@ != name,
            None => forall|j: int|
                0 <= j < metadata.topics@.len() ==> (#[trigger] metadata.topics@[j]).name@
                    != name,
        },
{
    let at = position_of(metadata.topics@, name);
    lemma_position_of(metadata.topics@, name);
    if at < metadata.topics@.len() {
        assert(metadata.topics@[at] == topic_of(metadata, name)->0);
    }
}

/// The source topics of some transfers are accepted exactly where each of them is
/// in the metadata, without an error.
pub proof fn law_source_topics_are_checked(metadata: Metadata, plans: Seq<TransferPlan>)
    ensures
        source_topics_fault(metadata, plans) is None <==> forall|i: int|
            0 <= i < plans.len() ==> {
                &&& topic_of(metadata, (#[trigger] plans[i]).source.topic@) is Some
                &&& topic_of(metadata, plans[i].source.topic@)->0.error is None
            },
    decreases plans.len(),
{
    if plans.len() > 0 {
        let front = plans.drop_last();
        law_source_topics_are_checked(metadata, front);
        assert(forall|i: int| 0 <= i < front.len() ==> plans[i] == #[trigger] front[i]);
        if source_topics_fault(metadata, plans) is None {
            assert forall|i: int| 0 <= i < plans.len() implies {
                &&& topic_of(metadata, (#[trigger] plans[i]).source.topic@) is Some
                &&& topic_of(metadata, plans[i].source.topic@)->0.error is None
            } by {
                if i < front.len() {
                    assert(front[i] == plans[i]);
                }
            }
        } else if source_topics_fault(metadata, front) is None {
            assert(plans[plans.len() - 1] == plans.last());
        }
    }
}

/// Of the source topics that are missing or in error, the first is told.
pub proof fn law_first_missing_topic_is_told(
    metadata: Metadata,
    plans: Seq<TransferPlan>,
    at: int,
)
    requires
        0 <= at < plans.len(),
        source_topics_fault(metadata, plans.take(at)) is None,
        source_topic_fault(metadata, plans[at].source.topic@) is Some,
    ensures
        source_topics_fault(metadata, plans) == source_topic_fault(metadata, plans[at].source.topic@),
{
    assert(plans.take(at + 1).drop_last() =~= plans.take(at));
    assert(plans.take(at + 1).last() == plans[at]);
    lemma_source_topics_fault_stays(metadata, plans, at + 1);
}

} // verus!
