//! Committed offsets of consumer groups: what is asked of a cluster, and what
//! its replies mean.

use crate::failure;
use crate::failure::{fail, require_no_zero, Failure, FailureView};
use crate::text;
use vstd::prelude::*;
use vstd::utf8::*;

verus! {

/// A partition that a consumer group has a committed offset of.
#[derive(Debug, Clone, PartialEq, Eq)]
pub struct ConsumerGroupOffset {
    pub topic: String,
    pub partition: i32,
}

/// A partition that a consumer group has a committed offset of.
#[verifier::ext_equal]
pub struct GroupOffsetView {
    pub topic: Seq<char>,
    pub partition: i32,
}

impl View for ConsumerGroupOffset {
    type V = GroupOffsetView;

    open spec fn view(&self) -> GroupOffsetView {
        GroupOffsetView { topic: self.topic@, partition: self.partition }
    }
}

/// Some group offsets.
pub open spec fn offset_views(offsets: Seq<ConsumerGroupOffset>) -> Seq<GroupOffsetView> {
    offsets.map_values(|offset: ConsumerGroupOffset| offset@)
}

/// What a reply says of a partition. An error is kept in its printed form, and
/// a negative offset stands for none.
#[derive(Debug)]
pub struct PartitionResult {
    pub topic: String,
    pub partition: i32,
    pub offset: i64,
    pub error: Option<String>,
}

/// What a reply says of a group.
#[derive(Debug)]
pub struct GroupResult {
    pub name: String,
    pub error: Option<String>,
    pub partitions: Vec<PartitionResult>,
}

/// The place of a group in a reply: there is no list of groups, the list has an
/// empty place, or a group stands there.
#[derive(Debug)]
pub enum GroupSlot {
    NoList,
    Vacant,
    Group(GroupResult),
}

/// A cluster's reply to a request about one group.
#[derive(Debug)]
pub enum GroupReply {
    TimedOut,
    Failed(String),
    NoResult,
    Results { count: usize, first: GroupSlot },
}

/// What the two requests about a group's offsets are called in reports.
#[derive(Debug, Clone, Copy, PartialEq, Eq, Structural)]
pub enum GroupRequest {
    List,
    Delete,
}

/// What is said when a request about a group times out.
pub open spec fn timeout_text(request: GroupRequest, group: Seq<char>) -> Seq<char> {
    match request {
        GroupRequest::List => "timed out listing offsets for consumer group "@ + group,
        GroupRequest::Delete => "timed out deleting offsets for consumer group "@ + group,
    }
}

/// What is said when a request about a group fails.
pub open spec fn failed_text(request: GroupRequest, detail: Seq<char>) -> Seq<char> {
    match request {
        GroupRequest::List => "list consumer group offsets request failed: "@ + detail,
        GroupRequest::Delete => "delete consumer group offsets request failed: "@ + detail,
    }
}

/// What is said of a reply without a result.
pub open spec fn no_result_text(request: GroupRequest) -> Seq<char> {
    match request {
        GroupRequest::List => "broker returned no consumer group offset result"@,
        GroupRequest::Delete => "broker returned no consumer offset deletion result"@,
    }
}

/// What is said of a reply that is not about exactly one group.
pub open spec fn count_text(request: GroupRequest, count: int) -> Seq<char> {
    match request {
        GroupRequest::List => "broker returned "@ + text::decimal(count)
            + " consumer group offset results instead of one"@,
        GroupRequest::Delete => "broker returned "@ + text::decimal(count)
            + " consumer offset deletion results instead of one"@,
    }
}

/// What is said of a partition that a request failed for.
pub open spec fn partition_text(request: GroupRequest, partition: PartitionResult) -> Seq<char> {
    let verb = match request {
        GroupRequest::List => "list"@,
        GroupRequest::Delete => "delete"@,
    };
    "failed to "@ + verb + " offset for "@ + partition.topic@ + " partition "@ + text::decimal(
        partition.partition as int,
    ) + ": "@ + partition.error->0@
}

/// What is wrong with what a reply says of a group.
pub open spec fn group_fault(group: GroupResult, expected: Seq<char>) -> Option<FailureView> {
    if group.name@ != expected {
        Some(
            failure::failed(
                "broker returned consumer group "@ + group.name@ + " instead of "@ + expected,
            ),
        )
    } else {
        match group.error {
            Some(error) => Some(
                failure::failed(
                    "consumer group "@ + expected + " request failed: "@ + error@,
                ),
            ),
            None => None,
        }
    }
}

/// The first partition that a request failed for.
pub open spec fn partitions_fault(
    request: GroupRequest,
    partitions: Seq<PartitionResult>,
) -> Option<FailureView>
    decreases partitions.len(),
{
    if partitions.len() == 0 {
        None
    } else {
        failure::first(
            partitions_fault(request, partitions.drop_last()),
            if partitions.last().error is Some {
                Some(failure::failed(partition_text(request, partitions.last())))
            } else {
                None
            },
        )
    }
}

/// What is wrong with a reply about one group.
pub open spec fn reply_fault(
    request: GroupRequest,
    reply: GroupReply,
    group: Seq<char>,
) -> Option<FailureView> {
    match reply {
        GroupReply::TimedOut => Some(failure::failed(timeout_text(request, group))),
        GroupReply::Failed(detail) => Some(failure::failed(failed_text(request, detail@))),
        GroupReply::NoResult => Some(failure::failed(no_result_text(request))),
        GroupReply::Results { count, first } => if first is NoList || count != 1 {
            Some(failure::failed(count_text(request, count as int)))
        } else {
            match first {
                GroupSlot::Group(result) => failure::first(
                    group_fault(result, group),
                    partitions_fault(request, result.partitions@),
                ),
                _ => Some(failure::failed("broker returned an empty consumer group result"@)),
            }
        },
    }
}

/// The partitions with a committed offset.
pub open spec fn committed(partitions: Seq<PartitionResult>) -> Seq<GroupOffsetView>
    decreases partitions.len(),
{
    if partitions.len() == 0 {
        Seq::empty()
    } else {
        let earlier = committed(partitions.drop_last());
        if partitions.last().offset >= 0 {
            earlier.push(
                GroupOffsetView {
                    topic: partitions.last().topic@,
                    partition: partitions.last().partition,
                },
            )
        } else {
            earlier
        }
    }
}

/// What a reply says of its group.
pub open spec fn reply_partitions(reply: GroupReply) -> Seq<PartitionResult> {
    reply->first->Group_0.partitions@
}

fn request_failure(request: GroupRequest, reply: &GroupReply, group: &str) -> (r: Failure)
    requires
        !(reply is Results),
    ensures
        reply_fault(request, *reply, group@) == Some(r@),
{
    match reply {
        GroupReply::TimedOut => match request {
            GroupRequest::List => fail(
                text::join2("timed out listing offsets for consumer group ", group),
            ),
            GroupRequest::Delete => fail(
                text::join2("timed out deleting offsets for consumer group ", group),
            ),
        },
        GroupReply::Failed(detail) => match request {
            GroupRequest::List => fail(
                text::join2("list consumer group offsets request failed: ", detail.as_str()),
            ),
            GroupRequest::Delete => fail(
                text::join2("delete consumer group offsets request failed: ", detail.as_str()),
            ),
        },
        _ => match request {
            GroupRequest::List => fail(
                "broker returned no consumer group offset result".to_owned(),
            ),
            GroupRequest::Delete => fail(
                "broker returned no consumer offset deletion result".to_owned(),
            ),
        },
    }
}

fn count_failure(request: GroupRequest, count: usize) -> (r: Failure)
    ensures
        r@ == failure::failed(count_text(request, count as int)),
{
    let number = text::decimal_u64(count as u64);
    match request {
        GroupRequest::List => fail(
            text::join3(
                "broker returned ",
                number.as_str(),
                " consumer group offset results instead of one",
            ),
        ),
        GroupRequest::Delete => fail(
            text::join3(
                "broker returned ",
                number.as_str(),
                " consumer offset deletion results instead of one",
            ),
        ),
    }
}

fn ensure_group_success(group: &GroupResult, expected_group: &str) -> (r: Result<(), Failure>)
    ensures
        failure::tells(r, group_fault(*group, expected_group@)),
{
    if !text::same(group.name.as_str(), expected_group) {
        let mut message = text::join3(
            "broker returned consumer group ",
            group.name.as_str(),
            " instead of ",
        );
        message.append(expected_group);
        return Err(fail(message));
    }
    if let Some(error) = &group.error {
        let mut message = text::join3("consumer group ", expected_group, " request failed: ");
        message.append(error.as_str());
        return Err(fail(message));
    }
    Ok(())
}

proof fn lemma_partitions_fault_stays(
    request: GroupRequest,
    partitions: Seq<PartitionResult>,
    count: int,
)
    requires
        0 <= count <= partitions.len(),
        partitions_fault(request, partitions.take(count)) is Some,
    ensures
        partitions_fault(request, partitions) == partitions_fault(
            request,
            partitions.take(count),
        ),
    decreases partitions.len(),
{
    if count < partitions.len() {
        assert(partitions.drop_last().take(count) == partitions.take(count));
        lemma_partitions_fault_stays(request, partitions.drop_last(), count);
    } else {
        assert(partitions.take(count) == partitions);
    }
}

fn partition_failure(request: GroupRequest, partition: &PartitionResult, error: &str) -> (r: Failure)
    requires
        partition.error is Some,
        partition.error->0@ == error@,
    ensures
        r@ == failure::failed(partition_text(request, *partition)),
{
    let verb = match request {
        GroupRequest::List => "list",
        GroupRequest::Delete => "delete",
    };
    let number = text::decimal_i64(partition.partition as i64);
    let mut message = text::join7(
        "failed to ",
        verb,
        " offset for ",
        partition.topic.as_str(),
        " partition ",
        number.as_str(),
        ": ",
    );
    message.append(error);
    fail(message)
}

fn committed_offsets(request: GroupRequest, partitions: &Vec<PartitionResult>) -> (r: Result<
    Vec<ConsumerGroupOffset>,
    Failure,
>)
    ensures
        failure::tells(r, partitions_fault(request, partitions@)),
        r matches Ok(offsets) ==> offset_views(offsets@) == committed(partitions@),
{
    let mut offsets: Vec<ConsumerGroupOffset> = Vec::new();
    let mut i: usize = 0;
    assert(partitions@.take(0) == Seq::<PartitionResult>::empty());
    assert(offset_views(offsets@) == Seq::<GroupOffsetView>::empty());
    while i < partitions.len()
        invariant
            i <= partitions@.len(),
            partitions_fault(request, partitions@.take(i as int)) is None,
            offset_views(offsets@) == committed(partitions@.take(i as int)),
        decreases partitions@.len() - i,
    {
        let partition = &partitions[i];
        proof {
            assert(partitions@.take(i + 1).drop_last() == partitions@.take(i as int));
            if partitions_fault(request, partitions@.take(i + 1)) is Some {
                lemma_partitions_fault_stays(request, partitions@, i + 1);
            }
        }
        if let Some(error) = &partition.error {
            return Err(partition_failure(request, partition, error.as_str()));
        }
        if partition.offset >= 0 {
            let ghost before = offsets@;
            let offset = ConsumerGroupOffset {
                topic: partition.topic.clone(),
                partition: partition.partition,
            };
            let ghost view = offset@;
            offsets.push(offset);
            assert(offset_views(offsets@) == offset_views(before).push(view));
        }
        i = i + 1;
    }
    assert(partitions@.take(i as int) == partitions@);
    Ok(offsets)
}

fn read_reply(request: GroupRequest, reply: &GroupReply, group: &str) -> (r: Result<
    Vec<ConsumerGroupOffset>,
    Failure,
>)
    ensures
        failure::tells(r, reply_fault(request, *reply, group@)),
        r matches Ok(offsets) ==> offset_views(offsets@) == committed(reply_partitions(*reply)),
{
    match reply {
        GroupReply::Results { count, first } => match first {
            GroupSlot::NoList => Err(count_failure(request, *count)),
            GroupSlot::Vacant => if *count != 1 {
                Err(count_failure(request, *count))
            } else {
                Err(fail("broker returned an empty consumer group result".to_owned()))
            },
            GroupSlot::Group(result) => {
                if *count != 1 {
                    return Err(count_failure(request, *count));
                }
                if let Err(failure) = ensure_group_success(result, group) {
                    return Err(failure);
                }
                committed_offsets(request, &result.partitions)
            },
        },
        _ => Err(request_failure(request, reply, group)),
    }
}

/// Checks the name of a group whose offsets are to be listed.
pub fn check_list_request(group: &str) -> (r: Result<(), Failure>)
    ensures
        failure::tells(r, failure::zero_fault(group@, "consumer group contains a NUL byte"@)),
{
    require_no_zero(group, "consumer group contains a NUL byte")
}

/// The partitions that a group has a committed offset of, as a reply tells
/// them.
pub fn list_offsets(reply: &GroupReply, group: &str) -> (r: Result<
    Vec<ConsumerGroupOffset>,
    Failure,
>)
    ensures
        failure::tells(r, reply_fault(GroupRequest::List, *reply, group@)),
        r matches Ok(offsets) ==> offset_views(offsets@) == committed(reply_partitions(*reply)),
{
    read_reply(GroupRequest::List, reply, group)
}

/// The first topic with a zero byte in its name.
pub open spec fn topics_fault(offsets: Seq<ConsumerGroupOffset>) -> Option<FailureView>
    decreases offsets.len(),
{
    if offsets.len() == 0 {
        None
    } else {
        failure::first(
            topics_fault(offsets.drop_last()),
            failure::zero_fault(offsets.last().topic@, "topic contains a NUL byte"@),
        )
    }
}

/// What is wrong with a request to delete a group's offsets.
pub open spec fn delete_fault(group: Seq<char>, offsets: Seq<ConsumerGroupOffset>) -> Option<
    FailureView,
> {
    if offsets.len() == 0 {
        None
    } else {
        failure::first(
            failure::zero_fault(group, "consumer group contains a NUL byte"@),
            failure::first(
                topics_fault(offsets),
                if offsets.len() > i32::MAX {
                    Some(
                        FailureView {
                            message: "too many consumer offsets to delete"@,
                            cause: Some("out of range integral type conversion attempted"@),
                        },
                    )
                } else {
                    None
                },
            ),
        )
    }
}

proof fn lemma_topics_fault_stays(offsets: Seq<ConsumerGroupOffset>, count: int)
    requires
        0 <= count <= offsets.len(),
        topics_fault(offsets.take(count)) is Some,
    ensures
        topics_fault(offsets) == topics_fault(offsets.take(count)),
    decreases offsets.len(),
{
    if count < offsets.len() {
        assert(offsets.drop_last().take(count) == offsets.take(count));
        lemma_topics_fault_stays(offsets.drop_last(), count);
    } else {
        assert(offsets.take(count) == offsets);
    }
}

fn check_topics(offsets: &[ConsumerGroupOffset]) -> (r: Result<(), Failure>)
    ensures
        failure::tells(r, topics_fault(offsets@)),
{
    let mut i: usize = 0;
    assert(offsets@.take(0) == Seq::<ConsumerGroupOffset>::empty());
    while i < offsets.len()
        invariant
            i <= offsets@.len(),
            topics_fault(offsets@.take(i as int)) is None,
        decreases offsets@.len() - i,
    {
        proof {
            assert(offsets@.take(i + 1).drop_last() == offsets@.take(i as int));
            if topics_fault(offsets@.take(i + 1)) is Some {
                lemma_topics_fault_stays(offsets@, i + 1);
            }
        }
        if let Err(failure) = require_no_zero(
            offsets[i].topic.as_str(),
            "topic contains a NUL byte",
        ) {
            return Err(failure);
        }
        i = i + 1;
    }
    assert(offsets@.take(i as int) == offsets@);
    Ok(())
}

/// Checks a request to delete a group's offsets, and says how many partitions it
/// is about. Nothing is asked of the cluster where there are none.
pub fn check_delete_request(group: &str, offsets: &[ConsumerGroupOffset]) -> (r: Result<
    Option<i32>,
    Failure,
>)
    ensures
        failure::tells(r, delete_fault(group@, offsets@)),
        r matches Ok(count) ==> count == (if offsets@.len() == 0 {
            None
        } else {
            Some(offsets@.len() as i32)
        }),
{
    if offsets.len() == 0 {
        return Ok(None);
    }
    if let Err(failure) = require_no_zero(group, "consumer group contains a NUL byte") {
        return Err(failure);
    }
    if let Err(failure) = check_topics(offsets) {
        return Err(failure);
    }
    if offsets.len() > 0x7fff_ffff {
        return Err(
            Failure {
                message: "too many consumer offsets to delete".to_owned(),
                cause: Some("out of range integral type conversion attempted".to_owned()),
            },
        );
    }
    Ok(Some(offsets.len() as i32))
}

/// Whether a group's offsets have been deleted, as a reply tells it.
pub fn delete_offsets(reply: &GroupReply, group: &str) -> (r: Result<(), Failure>)
    ensures
        failure::tells(r, reply_fault(GroupRequest::Delete, *reply, group@)),
{
    match read_reply(GroupRequest::Delete, reply, group) {
        Ok(_) => Ok(()),
        Err(failure) => Err(failure),
    }
}

/// The offsets among some that are of a topic.
pub open spec fn of_topic(offsets: Seq<ConsumerGroupOffset>, topic: Seq<char>) -> Seq<
    GroupOffsetView,
>
    decreases offsets.len(),
{
    if offsets.len() == 0 {
        Seq::empty()
    } else {
        let earlier = of_topic(offsets.drop_last(), topic);
        if offsets.last().topic@ == topic {
            earlier.push(offsets.last()@)
        } else {
            earlier
        }
    }
}

/// Picks the offsets of a topic, which are those that are deleted when the topic
/// is created afresh.
pub fn offsets_of_topic(offsets: &[ConsumerGroupOffset], topic: &str) -> (r: Vec<
    ConsumerGroupOffset,
>)
    ensures
        offset_views(r@) == of_topic(offsets@, topic@),
{
    let mut picked: Vec<ConsumerGroupOffset> = Vec::new();
    let mut i: usize = 0;
    assert(offsets@.take(0) == Seq::<ConsumerGroupOffset>::empty());
    assert(offset_views(picked@) == Seq::<GroupOffsetView>::empty());
    while i < offsets.len()
        invariant
            i <= offsets@.len(),
            offset_views(picked@) == of_topic(offsets@.take(i as int), topic@),
        decreases offsets@.len() - i,
    {
        assert(offsets@.take(i + 1).drop_last() == offsets@.take(i as int));
        if text::same(offsets[i].topic.as_str(), topic) {
            let ghost before = picked@;
            let offset = ConsumerGroupOffset {
                topic: offsets[i].topic.clone(),
                partition: offsets[i].partition,
            };
            let ghost view = offset@;
            picked.push(offset);
            assert(offset_views(picked@) == offset_views(before).push(view));
        }
        i = i + 1;
    }
    assert(offsets@.take(i as int) == offsets@);
    picked
}

/// Offsets of unrelated topics are untouched: whatever is picked is of the
/// topic, and every offset of the topic is picked.
pub proof fn law_only_the_topics_offsets(
    offsets: Seq<ConsumerGroupOffset>,
    topic: Seq<char>,
    offset: GroupOffsetView,
)
    ensures
        of_topic(offsets, topic).contains(offset) <==> (offset.topic == topic && offset_views(
            offsets,
        ).contains(offset)),
    decreases offsets.len(),
{
    let views = offset_views(offsets);
    let picked = of_topic(offsets, topic);
    if offsets.len() > 0 {
        let front = offsets.drop_last();
        let earlier = of_topic(front, topic);
        law_only_the_topics_offsets(front, topic, offset);
        let last = offsets.last()@;
        assert(views =~= offset_views(front).push(last));
        if picked.contains(offset) {
            let i = choose|i: int| 0 <= i < picked.len() && picked[i] == offset;
            if i < earlier.len() {
                assert(earlier[i] == offset);
                let j = choose|j: int|
                    0 <= j < offset_views(front).len() && offset_views(front)[j] == offset;
                assert(views[j] == offset);
            } else {
                assert(views[offsets.len() - 1] == offset);
            }
        }
        if offset.topic == topic && views.contains(offset) {
            let i = choose|i: int| 0 <= i < views.len() && views[i] == offset;
            if i < front.len() {
                assert(offset_views(front)[i] == offset);
                let j = choose|j: int| 0 <= j < earlier.len() && earlier[j] == offset;
                assert(picked[j] == offset);
            } else {
                assert(picked[picked.len() - 1] == offset);
            }
        }
    }
}

/// A group's listed offsets are those of the reply with an offset that is not
/// negative, all of them and no others, in the order of the reply.
pub proof fn law_every_committed_offset_is_listed(partitions: Seq<PartitionResult>)
    ensures
        committed(partitions) == partitions.filter_map(
            |result: PartitionResult|
                if result.offset >= 0 {
                    Some(GroupOffsetView { topic: result.topic@, partition: result.partition })
                } else {
                    None
                },
        ),
        forall|i: int|
            0 <= i < partitions.len() && (#[trigger] partitions[i]).offset >= 0 ==> committed(
                partitions,
            ).contains(
                GroupOffsetView {
                    topic: partitions[i].topic@,
                    partition: partitions[i].partition,
                },
            ),
        forall|offset: GroupOffsetView| #[trigger]
            committed(partitions).contains(offset) ==> exists|i: int|
                0 <= i < partitions.len() && (#[trigger] partitions[i]).offset >= 0
                    && partitions[i].topic@ == offset.topic && partitions[i].partition
                    == offset.partition,
    decreases partitions.len(),
{
    let pick = |result: PartitionResult|
        if result.offset >= 0 {
            Some(GroupOffsetView { topic: result.topic@, partition: result.partition })
        } else {
            None
        };
    let all = committed(partitions);
    if partitions.len() > 0 {
        let front = partitions.drop_last();
        let earlier = committed(front);
        law_every_committed_offset_is_listed(front);
        assert(all =~= partitions.filter_map(pick));
        assert forall|i: int|
            0 <= i < partitions.len() && (#[trigger] partitions[i]).offset >= 0 implies all.contains(
            GroupOffsetView { topic: partitions[i].topic@, partition: partitions[i].partition },
        ) by {
            let offset = GroupOffsetView {
                topic: partitions[i].topic@,
                partition: partitions[i].partition,
            };
            if i < front.len() {
                assert(front[i] == partitions[i]);
                let j = choose|j: int| 0 <= j < earlier.len() && earlier[j] == offset;
                assert(all[j] == offset);
            } else {
                assert(all[all.len() - 1] == offset);
            }
        }
        assert forall|offset: GroupOffsetView| #[trigger] all.contains(offset) implies exists|
            i: int,
        |
            0 <= i < partitions.len() && (#[trigger] partitions[i]).offset >= 0
                && partitions[i].topic@ == offset.topic && partitions[i].partition
                == offset.partition by {
            let j = choose|j: int| 0 <= j < all.len() && all[j] == offset;
            if j < earlier.len() {
                assert(earlier[j] == offset);
                assert(earlier.contains(offset));
                let i = choose|i: int|
                    0 <= i < front.len() && (#[trigger] front[i]).offset >= 0 && front[i].topic@
                        == offset.topic && front[i].partition == offset.partition;
                assert(partitions[i] == front[i]);
            } else {
                assert(partitions[partitions.len() - 1].offset >= 0);
            }
        }
    }
}

/// The offsets that are deleted with a topic are the group's offsets of that
/// topic, each as often as it is listed and in that order.
pub proof fn law_a_topics_offsets_are_picked(offsets: Seq<ConsumerGroupOffset>, topic: Seq<char>)
    ensures
        of_topic(offsets, topic) == offsets.filter_map(
            |offset: ConsumerGroupOffset|
                if offset.topic@ == topic {
                    Some(offset@)
                } else {
                    None
                },
        ),
    decreases offsets.len(),
{
    let pick = |offset: ConsumerGroupOffset|
        if offset.topic@ == topic {
            Some(offset@)
        } else {
            None
        };
    if offsets.len() > 0 {
        law_a_topics_offsets_are_picked(offsets.drop_last(), topic);
        assert(of_topic(offsets, topic) =~= offsets.filter_map(pick));
    }
}

proof fn lemma_partition_faults(request: GroupRequest, partitions: Seq<PartitionResult>)
    ensures
        partitions_fault(request, partitions) is None <==> forall|i: int|
            0 <= i < partitions.len() ==> (#[trigger] partitions[i]).error is None,
    decreases partitions.len(),
{
    if partitions.len() > 0 {
        let front = partitions.drop_last();
        lemma_partition_faults(request, front);
        assert(forall|i: int| 0 <= i < front.len() ==> partitions[i] == #[trigger] front[i]);
        if partitions_fault(request, partitions) is None {
            assert forall|i: int| 0 <= i < partitions.len() implies (
            #[trigger] partitions[i]).error is None by {
                if i < front.len() {
                    assert(front[i].error is None);
                }
            }
        } else if partitions.last().error is Some {
            assert(partitions[partitions.len() - 1].error is Some);
        }
    }
}

/// A request about a group's offsets succeeds exactly where the reply is about
/// that group alone, and reports no error for the group or for any of its
/// partitions.
pub proof fn law_replies_succeed_for_their_group(
    request: GroupRequest,
    reply: GroupReply,
    group: Seq<char>,
)
    ensures
        reply_fault(request, reply, group) is None <==> {
            &&& reply is Results
            &&& reply->count == 1
            &&& reply->first is Group
            &&& reply->first->Group_0.name@ == group
            &&& reply->first->Group_0.error is None
            &&& forall|i: int|
                0 <= i < reply->first->Group_0.partitions@.len() ==> (
                #[trigger] reply->first->Group_0.partitions@[i]).error is None
        },
{
    if reply is Results && reply->first is Group {
        lemma_partition_faults(request, reply->first->Group_0.partitions@);
    }
}

/// A request to delete offsets is made exactly where there are offsets, no name in
/// it holds a zero byte, and they can be counted.
pub proof fn law_deletions_are_well_formed(group: Seq<char>, offsets: Seq<ConsumerGroupOffset>)
    requires
        offsets.len() > 0,
    ensures
        delete_fault(group, offsets) is None <==> {
            &&& !encode_utf8(group).contains(0)
            &&& forall|i: int|
                0 <= i < offsets.len() ==> !encode_utf8((#[trigger] offsets[i]).topic@).contains(0)
            &&& offsets.len() <= i32::MAX
        },
{
    failure::law_zero_bytes_are_refused(group, "consumer group contains a NUL byte"@);
    lemma_topic_faults(offsets);
}

proof fn lemma_topic_faults(offsets: Seq<ConsumerGroupOffset>)
    ensures
        topics_fault(offsets) is None <==> forall|i: int|
            0 <= i < offsets.len() ==> !encode_utf8((#[trigger] offsets[i]).topic@).contains(0),
    decreases offsets.len(),
{
    if offsets.len() > 0 {
        let front = offsets.drop_last();
        lemma_topic_faults(front);
        failure::law_zero_bytes_are_refused(offsets.last().topic@, "topic contains a NUL byte"@);
        assert(forall|i: int| 0 <= i < front.len() ==> offsets[i] == #[trigger] front[i]);
        if topics_fault(offsets) is None {
            assert forall|i: int| 0 <= i < offsets.len() implies !encode_utf8(
                (#[trigger] offsets[i]).topic@,
            ).contains(0) by {
                if i < front.len() {
                    assert(!encode_utf8(front[i].topic@).contains(0));
                }
            }
        } else if topics_fault(front) is None {
            assert(encode_utf8(offsets[offsets.len() - 1].topic@).contains(0));
        }
    }
}

/// Of the partitions that a request failed for, the first is told.
pub proof fn law_first_failed_partition_is_told(
    request: GroupRequest,
    partitions: Seq<PartitionResult>,
    at: int,
)
    requires
        0 <= at < partitions.len(),
        partitions_fault(request, partitions.take(at)) is None,
        (if partitions[at].error is Some { Some(failure::failed(partition_text(request, partitions[at]))) } else { None }) is Some,
    ensures
        partitions_fault(request, partitions) == (if partitions[at].error is Some { Some(failure::failed(partition_text(request, partitions[at]))) } else { None }),
{
    assert(partitions.take(at + 1).drop_last() =~= partitions.take(at));
    assert(partitions.take(at + 1).last() == partitions[at]);
    lemma_partitions_fault_stays(request, partitions, at + 1);
}

/// Of the topics whose name holds a zero byte, the first is told.
pub proof fn law_first_unusable_topic_is_told(
    offsets: Seq<ConsumerGroupOffset>,
    at: int,
)
    requires
        0 <= at < offsets.len(),
        topics_fault(offsets.take(at)) is None,
        failure::zero_fault(offsets[at].topic@, "topic contains a NUL byte"@) is Some,
    ensures
        topics_fault(offsets) == failure::zero_fault(offsets[at].topic@, "topic contains a NUL byte"@),
{
    assert(offsets.take(at + 1).drop_last() =~= offsets.take(at));
    assert(offsets.take(at + 1).last() == offsets[at]);
    lemma_topics_fault_stays(offsets, at + 1);
}

} // verus!
