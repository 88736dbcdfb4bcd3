//! Identities of clusters and topics, as a cluster's replies tell them.

use crate::failure;
use crate::failure::{fail, require_no_zero, Failure, FailureView};
use crate::text;
use vstd::prelude::*;

verus! {

/// A topic's UUID: its bits, and its encoded form.
#[derive(Debug)]
pub struct TopicUuid {
    pub most_significant_bits: i64,
    pub least_significant_bits: i64,
    pub encoded: String,
}

/// What a reply says of a topic.
#[derive(Debug)]
pub struct TopicDescription {
    pub error: Option<String>,
    pub uuid: Option<TopicUuid>,
}

/// The place of a topic in a reply: there is no list of topics, the list has an
/// empty place, or a topic stands there.
#[derive(Debug)]
pub enum DescriptionSlot {
    NoList,
    Vacant,
    Topic(TopicDescription),
}

/// A cluster's reply to a request for one topic's identity.
#[derive(Debug)]
pub enum IdentityReply {
    TimedOut,
    Failed(String),
    NoResult,
    Results { count: usize, first: DescriptionSlot },
}

/// What is wrong with what a reply says of a topic.
pub open spec fn description_fault(description: TopicDescription) -> Option<FailureView> {
    match description.error {
        Some(error) => Some(
            failure::failed("failed to describe topic identity: "@ + error@),
        ),
        None => match description.uuid {
            None => Some(
                failure::failed(
                    "broker returned no topic UUID; Fransson requires Kafka 2.8 or newer"@,
                ),
            ),
            Some(uuid) => if uuid.most_significant_bits == 0 && uuid.least_significant_bits == 0 {
                Some(
                    failure::failed(
                        "broker returned no topic UUID; Fransson requires Kafka 2.8 or newer"@,
                    ),
                )
            } else if uuid.encoded@.len() == 0 {
                Some(failure::failed("broker returned an empty topic UUID"@))
            } else {
                None
            },
        },
    }
}

/// What is wrong with a reply about one topic.
pub open spec fn identity_fault(reply: IdentityReply) -> Option<FailureView> {
    match reply {
        IdentityReply::TimedOut => Some(failure::failed("timed out describing topic identity"@)),
        IdentityReply::Failed(detail) => Some(
            failure::failed("topic identity request failed: "@ + detail@),
        ),
        IdentityReply::NoResult => Some(
            failure::failed("broker returned no topic identity result"@),
        ),
        IdentityReply::Results { count, first } => if first is NoList || count != 1 {
            Some(
                failure::failed(
                    "broker returned "@ + text::decimal(count as int)
                        + " topic descriptions instead of one"@,
                ),
            )
        } else {
            match first {
                DescriptionSlot::Topic(description) => description_fault(description),
                _ => Some(failure::failed("broker returned an empty topic description"@)),
            }
        },
    }
}

/// The encoded UUID in a reply about one topic.
pub open spec fn identity_of(reply: IdentityReply) -> Seq<char> {
    reply->first->Topic_0.uuid->0.encoded@
}

/// Checks the name of a topic whose identity is to be asked for.
pub fn check_identity_request(topic: &str) -> (r: Result<(), Failure>)
    ensures
        failure::tells(r, failure::zero_fault(topic@, "topic name contains a NUL byte"@)),
{
    require_no_zero(topic, "topic name contains a NUL byte")
}

fn count_failure(count: usize) -> (r: Failure)
    ensures
        r@ == failure::failed(
            "broker returned "@ + text::decimal(count as int)
                + " topic descriptions instead of one"@,
        ),
{
    fail(
        text::join3(
            "broker returned ",
            text::decimal_u64(count as u64).as_str(),
            " topic descriptions instead of one",
        ),
    )
}

fn described_id(description: TopicDescription) -> (r: Result<String, Failure>)
    ensures
        failure::tells(r, description_fault(description)),
        r matches Ok(id) ==> id@ == description.uuid->0.encoded@,
{
    if let Some(error) = description.error {
        return Err(fail(text::join2("failed to describe topic identity: ", error.as_str())));
    }
    match description.uuid {
        None => Err(
            fail(
                "broker returned no topic UUID; Fransson requires Kafka 2.8 or newer".to_owned(),
            ),
        ),
        Some(uuid) => {
            if uuid.most_significant_bits == 0 && uuid.least_significant_bits == 0 {
                return Err(
                    fail(
                        "broker returned no topic UUID; Fransson requires Kafka 2.8 or newer".to_owned(),
                    ),
                );
            }
            if uuid.encoded.as_str().unicode_len() == 0 {
                return Err(fail("broker returned an empty topic UUID".to_owned()));
            }
            Ok(uuid.encoded)
        },
    }
}

/// A topic's identity, as a reply tells it.
pub fn topic_id(reply: IdentityReply) -> (r: Result<String, Failure>)
    ensures
        failure::tells(r, identity_fault(reply)),
        r matches Ok(id) ==> id@ == identity_of(reply),
{
    match reply {
        IdentityReply::TimedOut => Err(fail("timed out describing topic identity".to_owned())),
        IdentityReply::Failed(detail) => Err(
            fail(text::join2("topic identity request failed: ", detail.as_str())),
        ),
        IdentityReply::NoResult => Err(
            fail("broker returned no topic identity result".to_owned()),
        ),
        IdentityReply::Results { count, first } => match first {
            DescriptionSlot::NoList => Err(count_failure(count)),
            DescriptionSlot::Vacant => if count != 1 {
                Err(count_failure(count))
            } else {
                Err(fail("broker returned an empty topic description".to_owned()))
            },
            DescriptionSlot::Topic(description) => if count != 1 {
                Err(count_failure(count))
            } else {
                described_id(description)
            },
        },
    }
}

/// A cluster's identity, where the cluster has told one.
pub fn cluster_id(fetched: Option<String>) -> (r: Result<String, Failure>)
    ensures
        failure::tells(
            r,
            match fetched {
                Some(_) => None,
                None => Some(failure::failed("broker did not return a cluster ID"@)),
            },
        ),
        r matches Ok(id) ==> fetched == Some(id),
{
    match fetched {
        Some(id) => Ok(id),
        None => Err(fail("broker did not return a cluster ID".to_owned())),
    }
}

/// A topic's identity is known exactly where the reply is about one topic, shows
/// no error, and holds a UUID that is neither zero nor empty.
pub proof fn law_identities_need_a_uuid(reply: IdentityReply)
    ensures
        identity_fault(reply) is None <==> {
            &&& reply is Results
            &&& reply->count == 1
            &&& reply->first is Topic
            &&& reply->first->Topic_0.error is None
            &&& reply->first->Topic_0.uuid is Some
            &&& reply->first->Topic_0.uuid->0.most_significant_bits != 0
                || reply->first->Topic_0.uuid->0.least_significant_bits != 0
            &&& reply->first->Topic_0.uuid->0.encoded@.len() > 0
        },
        identity_fault(reply) is None ==> identity_of(reply)
            == reply->first->Topic_0.uuid->0.encoded@,
{
}

} // verus!
