//! Transfers: which are active, and where each of their partitions starts and
//! ends.

use crate::text;
use crate::text_map::TextMap;
use crate::topics::{ManagedTopic, TransferKind, TransferPlan, TransferView};
use vstd::prelude::*;

verus! {

/// The transfers of some plans.
pub open spec fn plan_views(plans: Seq<TransferPlan>) -> Seq<TransferView> {
    plans.map_values(|plan: TransferPlan| plan@)
}

/// A transfer is of a kind, where one is asked for.
pub open spec fn of_kind(transfer: TransferView, kind: Option<TransferKind>) -> bool {
    match kind {
        Some(kind) => transfer.kind == kind,
        None => true,
    }
}

/// The transfers of some topics that are from a source and of a kind, in the
/// order of the topics.
pub open spec fn transfers_from(
    topics: Seq<ManagedTopic>,
    kind: Option<TransferKind>,
    source: Seq<char>,
) -> Seq<TransferView>
    decreases topics.len(),
{
    if topics.len() == 0 {
        Seq::empty()
    } else {
        let earlier = transfers_from(topics.drop_last(), kind, source);
        match topics.last()@.transfer {
            Some(transfer) => if transfer.source.instance == source && of_kind(transfer, kind) {
                earlier.push(transfer)
            } else {
                earlier
            },
            None => earlier,
        }
    }
}

/// A map holds for each source its transfers, and no source without any.
pub open spec fn groups(
    grouped: Map<Seq<char>, Vec<TransferPlan>>,
    topics: Seq<ManagedTopic>,
    kind: Option<TransferKind>,
) -> bool {
    forall|source: Seq<char>|
        #![trigger transfers_from(topics, kind, source)]
        #![trigger grouped.contains_key(source)]
        {
            &&& grouped.contains_key(source) == (transfers_from(topics, kind, source).len() > 0)
            &&& grouped.contains_key(source) ==> plan_views(grouped[source]@) == transfers_from(
                topics,
                kind,
                source,
            )
        }
}

fn add_to_group(grouped: &mut TextMap<Vec<TransferPlan>>, plan: &TransferPlan)
    ensures
        final(grouped)@.dom() == old(grouped)@.dom().insert(plan.source.instance@),
        forall|source: Seq<char>|
            source != plan.source.instance@ && old(grouped)@.contains_key(source) ==> #[trigger] final(grouped)@[source]
                == old(grouped)@[source],
        plan_views(final(grouped)@[plan.source.instance@]@) == (if old(grouped)@.contains_key(
            plan.source.instance@,
        ) {
            plan_views(old(grouped)@[plan.source.instance@]@)
        } else {
            Seq::empty()
        }).push(plan@),
{
    let mut plans: Vec<TransferPlan> = match grouped.remove(plan.source.instance.as_str()) {
        Some(plans) => plans,
        None => Vec::new(),
    };
    let ghost before = plan_views(plans@);
    plans.push(plan.clone());
    assert(plan_views(plans@) == before.push(plan@));
    grouped.insert(plan.source.instance.clone(), plans);
    assert(grouped@.dom() =~= old(grouped)@.dom().insert(plan.source.instance@));
}

/// Groups the transfers of some topics by source, those of one kind only where
/// one is asked for.
pub fn collect_topics_by_source(topics: &[ManagedTopic], kind: Option<TransferKind>) -> (r: TextMap<
    Vec<TransferPlan>,
>)
    ensures
        groups(r@, topics@, kind),
{
    let mut grouped: TextMap<Vec<TransferPlan>> = TextMap::new();
    let mut i: usize = 0;
    while i < topics.len()
        invariant
            i <= topics@.len(),
            groups(grouped@, topics@.take(i as int), kind),
        decreases topics@.len() - i,
    {
        let ghost front = topics@.take(i as int);
        let ghost more = topics@.take(i + 1);
        let ghost before = grouped@;
        assert(more.drop_last() == front);
        if let Some(transfer) = &topics[i].transfer {
            let wanted = match kind {
                Some(kind) => transfer.kind == kind,
                None => true,
            };
            if wanted {
                add_to_group(&mut grouped, transfer);
            }
        }
        assert(groups(grouped@, more, kind)) by {
            assert forall|source: Seq<char>|
                #![trigger transfers_from(more, kind, source)]
                #![trigger grouped@.contains_key(source)]
                {
                    &&& grouped@.contains_key(source) == (transfers_from(more, kind, source).len()
                        > 0)
                    &&& grouped@.contains_key(source) ==> plan_views(grouped@[source]@)
                        == transfers_from(more, kind, source)
                } by {
                let earlier = transfers_from(front, kind, source);
                assert(before.contains_key(source) == (earlier.len() > 0));
            }
        }
        i = i + 1;
    }
    assert(topics@.take(i as int) == topics@);
    grouped
}

/// The transfers that are active while running, by source.
pub fn collect_transfer_topics_by_source(topics: &[ManagedTopic]) -> (r: TextMap<Vec<TransferPlan>>)
    ensures
        groups(r@, topics@, None),
{
    collect_topics_by_source(topics, None)
}

/// The transfers that are active while restoring, by source.
pub fn collect_clone_topics_by_source(topics: &[ManagedTopic]) -> (r: TextMap<Vec<TransferPlan>>)
    ensures
        groups(r@, topics@, Some(TransferKind::Clone)),
{
    collect_topics_by_source(topics, Some(TransferKind::Clone))
}

/// Streams are inactive while restoring: every transfer that is grouped for
/// restoring is a clone.
pub proof fn law_streams_are_inactive_in_restore(
    topics: Seq<ManagedTopic>,
    source: Seq<char>,
    i: int,
)
    requires
        0 <= i < transfers_from(topics, Some(TransferKind::Clone), source).len(),
    ensures
        transfers_from(topics, Some(TransferKind::Clone), source)[i].kind == TransferKind::Clone,
    decreases topics.len(),
{
    let earlier = transfers_from(topics.drop_last(), Some(TransferKind::Clone), source);
    if i < earlier.len() {
        law_streams_are_inactive_in_restore(topics.drop_last(), source, i);
    }
}

/// Every transfer of the topics is active while running.
pub proof fn law_every_transfer_is_active_in_run(topics: Seq<ManagedTopic>, at: int)
    requires
        0 <= at < topics.len(),
        topics[at]@.transfer is Some,
    ensures
        transfers_from(topics, None, topics[at]@.transfer->0.source.instance).contains(
            topics[at]@.transfer->0,
        ),
    decreases topics.len(),
{
    let transfer = topics[at]@.transfer->0;
    let source = transfer.source.instance;
    let all = transfers_from(topics, None, source);
    let earlier = transfers_from(topics.drop_last(), None, source);
    if at < topics.len() - 1 {
        law_every_transfer_is_active_in_run(topics.drop_last(), at);
        let i = choose|i: int| 0 <= i < earlier.len() && earlier[i] == transfer;
        assert(all[i] == transfer);
    } else {
        assert(all[all.len() - 1] == transfer);
    }
}

/// The last of some transfers that is from a source topic.
pub open spec fn last_from(plans: Seq<TransferPlan>, topic: Seq<char>) -> Option<TransferView>
    decreases plans.len(),
{
    if plans.len() == 0 {
        None
    } else if plans.last().source.topic@ == topic {
        Some(plans.last()@)
    } else {
        last_from(plans.drop_last(), topic)
    }
}

/// A map holds for each source topic the transfer from it.
pub open spec fn transfer_mapped(
    map: Map<Seq<char>, TransferPlan>,
    plans: Seq<TransferPlan>,
) -> bool {
    forall|topic: Seq<char>|
        #![trigger last_from(plans, topic)]
        #![trigger map.contains_key(topic)]
        {
            &&& map.contains_key(topic) == (last_from(plans, topic) is Some)
            &&& map.contains_key(topic) ==> Some(map[topic]@) == last_from(plans, topic)
        }
}

/// Maps source topics to the transfers from them.
pub fn build_transfer_map(plans: &[TransferPlan]) -> (r: TextMap<TransferPlan>)
    ensures
        transfer_mapped(r@, plans@),
{
    let mut map: TextMap<TransferPlan> = TextMap::new();
    let mut i: usize = 0;
    while i < plans.len()
        invariant
            i <= plans@.len(),
            transfer_mapped(map@, plans@.take(i as int)),
        decreases plans@.len() - i,
    {
        let ghost front = plans@.take(i as int);
        let ghost more = plans@.take(i + 1);
        let ghost before = map@;
        assert(more.drop_last() == front);
        map.insert(plans[i].source.topic.clone(), plans[i].clone());
        assert forall|topic: Seq<char>|
            #![trigger last_from(more, topic)]
            #![trigger map@.contains_key(topic)]
            {
                &&& map@.contains_key(topic) == (last_from(more, topic) is Some)
                &&& map@.contains_key(topic) ==> Some(map@[topic]@) == last_from(more, topic)
            } by {
            assert(before.contains_key(topic) == (last_from(front, topic) is Some));
        }
        i = i + 1;
    }
    assert(plans@.take(i as int) == plans@);
    map
}

/// Where a partition starts.
#[derive(Debug, Clone, Copy, PartialEq, Eq, Structural)]
pub enum StartOffset {
    Beginning,
    End,
    At(i64),
}

/// Where a transfer's partition starts: a clone where it left off, or at the
/// beginning; a stream at the end.
pub open spec fn start_of(kind: TransferKind, saved: Option<i64>) -> StartOffset {
    match kind {
        TransferKind::Clone => match saved {
            Some(offset) => StartOffset::At(offset),
            None => StartOffset::Beginning,
        },
        TransferKind::Stream => StartOffset::End,
    }
}

/// Where a transfer's partition starts: a clone where it left off, or at the
/// beginning; a stream at the end.
pub fn initial_offset(plan: &TransferPlan, saved: Option<i64>) -> (r: StartOffset)
    ensures
        r == start_of(plan.kind, saved),
{
    match plan.kind {
        TransferKind::Clone => match saved {
            Some(offset) => StartOffset::At(offset),
            None => StartOffset::Beginning,
        },
        TransferKind::Stream => StartOffset::End,
    }
}

/// The key of a source partition.
pub open spec fn boundary_key(source: Seq<char>, topic: Seq<char>, partition: i32) -> Seq<char> {
    source + ":"@ + topic + ":"@ + text::decimal(partition as int)
}

/// The key of a source partition.
pub fn clone_boundary_key(source: &str, topic: &str, partition: i32) -> (r: String)
    ensures
        r@ == boundary_key(source@, topic@, partition),
{
    let number = text::decimal_i64(partition as i64);
    text::join5(source, ":", topic, ":", number.as_str())
}

/// Source partitions have different keys where the names of the sources hold no
/// colon.
pub proof fn law_boundary_keys_differ(
    source: Seq<char>,
    topic: Seq<char>,
    partition: i32,
    other_source: Seq<char>,
    other_topic: Seq<char>,
    other_partition: i32,
)
    requires
        !source.contains(':'),
        !other_source.contains(':'),
        boundary_key(source, topic, partition) == boundary_key(
            other_source,
            other_topic,
            other_partition,
        ),
    ensures
        source == other_source,
        topic == other_topic,
        partition == other_partition,
{
    reveal_strlit(":");
    let left = source + ":"@ + topic;
    let right = other_source + ":"@ + other_topic;
    text::lemma_numbered_differ(left, partition as int, right, other_partition as int);
    assert(left[source.len() as int] == ':');
    assert(right[other_source.len() as int] == ':');
    if source.len() < other_source.len() {
        assert(other_source[source.len() as int] == ':');
    } else if other_source.len() < source.len() {
        assert(source[other_source.len() as int] == ':');
    }
    assert(left.take(source.len() as int) =~= source);
    assert(right.take(other_source.len() as int) =~= other_source);
    assert(left.skip(source.len() as int + 1) =~= topic);
    assert(right.skip(other_source.len() as int + 1) =~= other_topic);
}

/// A source partition's low and high watermarks.
#[derive(Debug, Clone, Copy, PartialEq, Eq, Structural)]
pub struct Watermarks {
    pub partition: i32,
    pub low: i64,
    pub high: i64,
}

/// The watermarks of a source topic's partitions, added to others.
pub open spec fn with_watermarks(
    bounds: Map<Seq<char>, Watermarks>,
    source: Seq<char>,
    topic: Seq<char>,
    marks: Seq<Watermarks>,
) -> Map<Seq<char>, Watermarks>
    decreases marks.len(),
{
    if marks.len() == 0 {
        bounds
    } else {
        with_watermarks(bounds, source, topic, marks.drop_last()).insert(
            boundary_key(source, topic, marks.last().partition),
            marks.last(),
        )
    }
}

/// Records the watermarks of a source topic's partitions.
pub fn record_watermarks(
    bounds: &mut TextMap<Watermarks>,
    source: &str,
    topic: &str,
    marks: &[Watermarks],
)
    ensures
        final(bounds)@ == with_watermarks(old(bounds)@, source@, topic@, marks@),
{
    let mut i: usize = 0;
    assert(marks@.take(0) == Seq::<Watermarks>::empty());
    while i < marks.len()
        invariant
            i <= marks@.len(),
            bounds@ == with_watermarks(old(bounds)@, source@, topic@, marks@.take(i as int)),
        decreases marks@.len() - i,
    {
        let mark = marks[i];
        bounds.insert(clone_boundary_key(source, topic, mark.partition), mark);
        assert(marks@.take(i + 1).drop_last() == marks@.take(i as int));
        i = i + 1;
    }
    assert(marks@.take(i as int) == marks@);
}

/// The source offset that each partition of a clone ends in front of.
pub type CloneEndOffsets = TextMap<i64>;

/// The high watermarks, which are where clones end while restoring.
pub fn clone_end_offsets(bounds: &TextMap<Watermarks>) -> (r: CloneEndOffsets)
    ensures
        r@.dom() == bounds@.dom(),
        forall|key: Seq<char>|
            bounds@.contains_key(key) ==> #[trigger] r@[key] == bounds@[key].high,
{
    let mut ends: TextMap<i64> = TextMap::new();
    let mut i: usize = 0;
    while i < bounds.len()
        invariant
            i <= bounds.keys().len(),
            forall|key: Seq<char>| #[trigger]
                ends@.contains_key(key) == bounds.keys().take(i as int).contains(key),
            forall|key: Seq<char>|
                ends@.contains_key(key) ==> #[trigger] ends@[key] == bounds@[key].high,
        decreases bounds.keys().len() - i,
    {
        let ghost front = bounds.keys().take(i as int);
        let ghost more = bounds.keys().take(i + 1);
        let ghost before = ends@;
        let key = bounds.key_at(i);
        let high: i64 = bounds.value_at(i).high;
        ends.insert(key.to_owned(), high);
        assert forall|k: Seq<char>| #[trigger] ends@.contains_key(k) == more.contains(k) by {
            assert(before.contains_key(k) == front.contains(k));
            assert(more == front.push(key@));
            if front.contains(k) {
                let j = choose|j: int| 0 <= j < front.len() && front[j] == k;
                assert(more[j] == k);
            }
            if k == key@ {
                assert(more[i as int] == k);
            }
        }
        i = i + 1;
    }
    assert(bounds.keys().take(i as int) == bounds.keys());
    assert(ends@.dom() =~= bounds@.dom()) by {
        assert forall|k: Seq<char>| ends@.dom().contains(k) == bounds@.dom().contains(k) by {
            assert(ends@.contains_key(k) == bounds.keys().contains(k));
        }
    }
    ends
}

proof fn lemma_picked_transfers(
    topics: Seq<ManagedTopic>,
    kind: Option<TransferKind>,
    source: Seq<char>,
    pick: spec_fn(ManagedTopic) -> Option<TransferView>,
)
    requires
        forall|topic: ManagedTopic| #[trigger]
            pick(topic) == (match topic.transfer {
                Some(transfer) => if transfer.source.instance@ == source && (
                kind is None || kind == Some(transfer.kind)) {
                    Some(transfer@)
                } else {
                    None
                },
                None => None,
            }),
    ensures
        transfers_from(topics, kind, source) == topics.filter_map(pick),
    decreases topics.len(),
{
    if topics.len() > 0 {
        lemma_picked_transfers(topics.drop_last(), kind, source, pick);
        assert(pick(topics.last()) is Some ==> topics.last()@.transfer == pick(topics.last()));
        assert(transfers_from(topics, kind, source) =~= topics.filter_map(pick));
    }
}

/// What is grouped under a source is exactly the transfers of the topics that
/// are from that source and of the kind that is asked for, all of them, in the
/// order of the topics. A source without any is not in the map.
pub proof fn law_sources_have_all_their_transfers(
    grouped: Map<Seq<char>, Vec<TransferPlan>>,
    topics: Seq<ManagedTopic>,
    kind: Option<TransferKind>,
    source: Seq<char>,
)
    requires
        groups(grouped, topics, kind),
    ensures
        ({
            let wanted = topics.filter_map(
                |topic: ManagedTopic|
                    match topic.transfer {
                        Some(transfer) => if transfer.source.instance@ == source && (
                        kind is None || kind == Some(transfer.kind)) {
                            Some(transfer@)
                        } else {
                            None
                        },
                        None => None,
                    },
            );
            &&& grouped.contains_key(source) == (wanted.len() > 0)
            &&& grouped.contains_key(source) ==> grouped[source]@.map_values(
                |plan: TransferPlan| plan@,
            ) == wanted
        }),
{
    let pick = |topic: ManagedTopic|
        match topic.transfer {
            Some(transfer) => if transfer.source.instance@ == source && (kind is None || kind
                == Some(transfer.kind)) {
                Some(transfer@)
            } else {
                None
            },
            None => None,
        };
    lemma_picked_transfers(topics, kind, source, pick);
    assert(grouped.contains_key(source) == (transfers_from(topics, kind, source).len() > 0));
}

/// Every transfer of the kind that is asked for is grouped under its source:
/// while restoring, every clone is advanced.
pub proof fn law_every_transfer_is_grouped(
    grouped: Map<Seq<char>, Vec<TransferPlan>>,
    topics: Seq<ManagedTopic>,
    kind: Option<TransferKind>,
    at: int,
)
    requires
        groups(grouped, topics, kind),
        0 <= at < topics.len(),
        topics[at].transfer is Some,
        kind is None || kind == Some(topics[at].transfer->0.kind),
    ensures
        grouped.contains_key(topics[at].transfer->0.source.instance@),
        exists|i: int|
            0 <= i < grouped[topics[at].transfer->0.source.instance@]@.len() && (
            #[trigger] grouped[topics[at].transfer->0.source.instance@]@[i])@
                == topics[at].transfer->0@,
{
    let transfer = topics[at].transfer->0;
    let source = transfer.source.instance@;
    lemma_grouped_transfer(topics, kind, at);
    let all = transfers_from(topics, kind, source);
    let i = choose|i: int| 0 <= i < all.len() && all[i] == transfer@;
    assert(grouped.contains_key(source));
    assert(plan_views(grouped[source]@)[i] == grouped[source]@[i]@);
}

proof fn lemma_grouped_transfer(topics: Seq<ManagedTopic>, kind: Option<TransferKind>, at: int)
    requires
        0 <= at < topics.len(),
        topics[at].transfer is Some,
        kind is None || kind == Some(topics[at].transfer->0.kind),
    ensures
        transfers_from(topics, kind, topics[at].transfer->0.source.instance@).contains(
            topics[at].transfer->0@,
        ),
    decreases topics.len(),
{
    let transfer = topics[at].transfer->0@;
    let source = transfer.source.instance;
    let all = transfers_from(topics, kind, source);
    let earlier = transfers_from(topics.drop_last(), kind, source);
    if at < topics.len() - 1 {
        lemma_grouped_transfer(topics.drop_last(), kind, at);
        let i = choose|i: int| 0 <= i < earlier.len() && earlier[i] == transfer;
        assert(all[i] == transfer);
    } else {
        assert(all[all.len() - 1] == transfer);
    }
}

proof fn lemma_last_from(plans: Seq<TransferPlan>, topic: Seq<char>)
    ensures
        match last_from(plans, topic) {
            Some(found) => exists|i: int|
                0 <= i < plans.len() && (#[trigger] plans[i]).source.topic@ == topic && plans[i]@
                    == found && forall|j: int|
                    i < j < plans.len() ==> (#[trigger] plans[j]).source.topic@ != topic,
            None => forall|j: int|
                0 <= j < plans.len() ==> (#[trigger] plans[j]).source.topic@ != topic,
        },
    decreases plans.len(),
{
    if plans.len() > 0 {
        let front = plans.drop_last();
        if plans.last().source.topic@ == topic {
            assert(plans[plans.len() - 1].source.topic@ == topic);
        } else {
            lemma_last_from(front, topic);
            match last_from(front, topic) {
                Some(found) => {
                    let i = choose|i: int|
                        0 <= i < front.len() && (#[trigger] front[i]).source.topic@ == topic
                            && front[i]@ == found && forall|j: int|
                            i < j < front.len() ==> (#[trigger] front[j]).source.topic@ != topic;
                    assert(plans[i] == front[i]);
                    assert forall|j: int| i < j < plans.len() implies (
                    #[trigger] plans[j]).source.topic@ != topic by {
                        if j < front.len() {
                            assert(front[j] == plans[j]);
                        }
                    }
                },
                None => {
                    assert forall|j: int| 0 <= j < plans.len() implies (
                    #[trigger] plans[j]).source.topic@ != topic by {
                        if j < front.len() {
                            assert(front[j] == plans[j]);
                        }
                    }
                },
            }
        }
    }
}

/// A message is taken to the transfer that its topic is the source of: a topic is
/// mapped exactly where a transfer is from it, and to the last one that is.
pub proof fn law_messages_find_their_transfer(
    map: Map<Seq<char>, TransferPlan>,
    plans: Seq<TransferPlan>,
    topic: Seq<char>,
)
    requires
        transfer_mapped(map, plans),
    ensures
        map.contains_key(topic) <==> exists|i: int|
            0 <= i < plans.len() && (#[trigger] plans[i]).source.topic@ == topic,
        map.contains_key(topic) ==> exists|i: int|
            0 <= i < plans.len() && (#[trigger] plans[i]).source.topic@ == topic && map[topic]@
                == plans[i]@ && forall|j: int|
                i < j < plans.len() ==> (#[trigger] plans[j]).source.topic@ != topic,
{
    lemma_last_from(plans, topic);
    assert(map.contains_key(topic) == (last_from(plans, topic) is Some));
}

/// Recorded watermarks are found again: those of each partition that is recorded,
/// the last ones where a partition comes twice, and everything recorded earlier
/// of other partitions.
pub proof fn law_watermarks_are_recorded(
    bounds: Map<Seq<char>, Watermarks>,
    source: Seq<char>,
    topic: Seq<char>,
    marks: Seq<Watermarks>,
)
    ensures
        forall|i: int|
            0 <= i < marks.len() && (forall|j: int|
                i < j < marks.len() ==> (#[trigger] marks[j]).partition != marks[i].partition) ==> {
                let key = boundary_key(source, topic, (#[trigger] marks[i]).partition);
                &&& with_watermarks(bounds, source, topic, marks).contains_key(key)
                &&& with_watermarks(bounds, source, topic, marks)[key] == marks[i]
            },
        forall|key: Seq<char>|
            (forall|i: int|
                0 <= i < marks.len() ==> key != boundary_key(
                    source,
                    topic,
                    (#[trigger] marks[i]).partition,
                )) ==> {
                &&& #[trigger] with_watermarks(bounds, source, topic, marks).contains_key(key)
                    == bounds.contains_key(key)
                &&& bounds.contains_key(key) ==> with_watermarks(bounds, source, topic, marks)[key]
                    == bounds[key]
            },
    decreases marks.len(),
{
    if marks.len() > 0 {
        let front = marks.drop_last();
        let last = marks.last();
        law_watermarks_are_recorded(bounds, source, topic, front);
        let all = with_watermarks(bounds, source, topic, marks);
        let earlier = with_watermarks(bounds, source, topic, front);
        assert forall|i: int|
            0 <= i < marks.len() && (forall|j: int|
                i < j < marks.len() ==> (#[trigger] marks[j]).partition
                    != marks[i].partition) implies {
            let key = boundary_key(source, topic, (#[trigger] marks[i]).partition);
            &&& all.contains_key(key)
            &&& all[key] == marks[i]
        } by {
            if i < front.len() {
                assert(front[i] == marks[i]);
                assert forall|j: int| i < j < front.len() implies (#[trigger] front[j]).partition
                    != front[i].partition by {
                    assert(front[j] == marks[j]);
                }
                assert(marks[marks.len() - 1] == last);
                if boundary_key(source, topic, marks[i].partition) == boundary_key(
                    source,
                    topic,
                    last.partition,
                ) {
                    text::lemma_numbered_differ(
                        source + ":"@ + topic,
                        marks[i].partition as int,
                        source + ":"@ + topic,
                        last.partition as int,
                    );
                }
            }
        }
        assert forall|key: Seq<char>|
            (forall|i: int|
                0 <= i < marks.len() ==> key != boundary_key(
                    source,
                    topic,
                    (#[trigger] marks[i]).partition,
                )) implies {
            &&& #[trigger] all.contains_key(key) == bounds.contains_key(key)
            &&& bounds.contains_key(key) ==> all[key] == bounds[key]
        } by {
            assert forall|i: int| 0 <= i < front.len() implies key != boundary_key(
                source,
                topic,
                (#[trigger] front[i]).partition,
            ) by {
                assert(front[i] == marks[i]);
            }
            assert(marks[marks.len() - 1] == last);
            assert(earlier.contains_key(key) == bounds.contains_key(key));
        }
    }
}

/// A clone starts at the offset that is saved, or at the first one where none is;
/// a stream starts at the end, whatever is saved.
pub proof fn law_starts_follow_the_kind(saved: i64)
    ensures
        start_of(TransferKind::Clone, Some(saved)) == StartOffset::At(saved),
        start_of(TransferKind::Clone, None) == StartOffset::Beginning,
        start_of(TransferKind::Stream, Some(saved)) == StartOffset::End,
        start_of(TransferKind::Stream, None) == StartOffset::End,
{
}

} // verus!
