//! The client library's list of partitions to read.

use crate::text;
use crate::transfers::StartOffset;
use rdkafka::topic_partition_list::{Offset, TopicPartitionList};
use vstd::prelude::*;
use vstd::utf8::*;

verus! {

/// The client library's list of partitions.
#[verifier::external_type_specification]
#[verifier::external_body]
pub struct ExTopicPartitionList(TopicPartitionList);

/// A partition in the list, and where reading it starts. A partition without a
/// start is not read.
#[verifier::ext_equal]
pub struct EntryView {
    pub topic: Seq<char>,
    pub partition: i32,
    pub start: Option<StartOffset>,
}

/// The partitions in a list, in order.
pub uninterp spec fn listed(list: TopicPartitionList) -> Seq<EntryView>;

/// A start that the client library accepts: an offset is not negative.
pub open spec fn acceptable(start: StartOffset) -> bool {
    match start {
        StartOffset::At(offset) => offset >= 0,
        _ => true,
    }
}

/// The position of the first entry of a partition, or the number of entries.
pub open spec fn entry_position(entries: Seq<EntryView>, topic: Seq<char>, partition: i32) -> int
    decreases entries.len(),
{
    if entries.len() == 0 || (entries[0].topic == topic && entries[0].partition == partition) {
        0
    } else {
        1 + entry_position(entries.drop_first(), topic, partition)
    }
}

/// Some entries and one more, which is without a start.
pub open spec fn with_vacant(
    entries: Seq<EntryView>,
    topic: Seq<char>,
    partition: i32,
) -> Seq<EntryView> {
    entries.push(EntryView { topic, partition, start: None })
}

/// Some entries and one more, whose start is given to the first entry of its
/// partition.
pub open spec fn with_entry(
    entries: Seq<EntryView>,
    topic: Seq<char>,
    partition: i32,
    start: StartOffset,
) -> Seq<EntryView> {
    let more = with_vacant(entries, topic, partition);
    more.update(
        entry_position(more, topic, partition),
        EntryView { topic, partition, start: Some(start) },
    )
}

/// `TopicPartitionList::new`. Trusted: a new list holds nothing.
#[verifier::external_body]
pub(crate) fn list_new() -> (r: TopicPartitionList)
    ensures
        listed(r) == Seq::<EntryView>::empty(),
{
    TopicPartitionList::new()
}

/// `TopicPartitionList::add_partition_offset`. Trusted: it adds an entry without
/// a start, and then gives the start to the first entry of the partition; a
/// start that is not acceptable is refused after the entry has been added. A
/// topic with a zero byte in its name would make it panic, and a list counts its
/// entries in 31 bits.
#[verifier::external_body]
pub(crate) fn list_add(
    list: &mut TopicPartitionList,
    topic: &str,
    partition: i32,
    start: StartOffset,
) -> (r: bool)
    requires
        text::first_zero(encode_utf8(topic@)) == encode_utf8(topic@).len(),
        listed(*old(list)).len() < i32::MAX,
    ensures
        r == acceptable(start),
        listed(*final(list)) == (if r {
            with_entry(listed(*old(list)), topic@, partition, start)
        } else {
            with_vacant(listed(*old(list)), topic@, partition)
        }),
{
    let offset = match start {
        StartOffset::Beginning => Offset::Beginning,
        StartOffset::End => Offset::End,
        StartOffset::At(offset) => Offset::Offset(offset),
    };
    list.add_partition_offset(topic, partition, offset).is_ok()
}

} // verus!
