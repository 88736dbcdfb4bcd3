//! Partitions: how many each destination topic is to have, and where reading
//! each source partition starts.

use crate::failure;
use crate::failure::{fail, require_no_zero, Failure, FailureView};
use crate::metadata;
use crate::metadata::{Metadata, MetadataPartition};
use crate::partition_list;
use crate::partition_list::EntryView;
use crate::state::OffsetState;
use crate::text;
use crate::text_map::TextMap;
use crate::topics;
use crate::topics::{ManagedTopic, TopicView, TransferKind, TransferPlan};
use crate::transfers;
use crate::transfers::{CloneEndOffsets, StartOffset, Watermarks};
use rdkafka::topic_partition_list::TopicPartitionList;
use vstd::prelude::*;
use vstd::utf8::*;

verus! {

/// Where reading a source partition starts.
#[derive(Debug)]
pub struct PartitionStart {
    pub topic: String,
    pub partition: i32,
    pub offset: StartOffset,
}

/// Where reading a source partition starts.
#[verifier::ext_equal]
pub struct StartView {
    pub topic: Seq<char>,
    pub partition: i32,
    pub offset: StartOffset,
}

impl View for PartitionStart {
    type V = StartView;

    open spec fn view(&self) -> StartView {
        StartView { topic: self.topic@, partition: self.partition, offset: self.offset }
    }
}

/// Where reading some source partitions starts.
pub open spec fn start_views(starts: Seq<PartitionStart>) -> Seq<StartView> {
    starts.map_values(|start: PartitionStart| start@)
}

/// The offset that a transfer's partition has been saved with. Only clones save
/// offsets.
pub open spec fn saved_offset(plan: TransferPlan, state: OffsetState, partition: i32) -> Option<
    i64,
> {
    if plan.kind == TransferKind::Clone {
        state.offset_of(plan.destination_topic@, partition)
    } else {
        None
    }
}

/// Where a transfer's partition starts.
pub open spec fn partition_start(
    plan: TransferPlan,
    state: OffsetState,
    partition: i32,
) -> StartView {
    StartView {
        topic: plan.source.topic@,
        partition,
        offset: transfers::start_of(plan.kind, saved_offset(plan, state, partition)),
    }
}

/// Where a transfer's partitions start.
pub open spec fn plan_starts(
    plan: TransferPlan,
    state: OffsetState,
    partitions: Seq<MetadataPartition>,
) -> Seq<StartView> {
    partitions.map_values(
        |partition: MetadataPartition| partition_start(plan, state, partition.id),
    )
}

/// Where the partitions of some transfers start, transfer after transfer.
pub open spec fn assignment_of(
    metadata: Metadata,
    plans: Seq<TransferPlan>,
    state: OffsetState,
) -> Seq<StartView>
    decreases plans.len(),
{
    if plans.len() == 0 {
        Seq::empty()
    } else {
        assignment_of(metadata, plans.drop_last(), state) + plan_starts(
            plans.last(),
            state,
            metadata::topic_of(metadata, plans.last().source.topic@)->0.partitions@,
        )
    }
}

/// A saved offset must not lie behind the end of its partition.
pub open spec fn beyond_end_fault(
    plan: TransferPlan,
    state: OffsetState,
    ends: Map<Seq<char>, i64>,
    partition: i32,
) -> Option<FailureView> {
    let saved = saved_offset(plan, state, partition);
    let key = transfers::boundary_key(plan.source.instance@, plan.source.topic@, partition);
    if saved is Some && ends.contains_key(key) && saved->0 > ends[key] {
        Some(
            failure::failed(
                "saved offset "@ + text::decimal(saved->0 as int)
                    + " is beyond captured end offset "@ + text::decimal(ends[key] as int)
                    + " for "@ + plan.source.instance@ + ":"@ + plan.source.topic@ + " partition "@
                    + text::decimal(partition as int),
            ),
        )
    } else {
        None
    }
}

/// A saved offset lies outside the watermarks of its source partition.
pub open spec fn is_outside(
    plan: TransferPlan,
    state: OffsetState,
    bounds: Map<Seq<char>, Watermarks>,
    partition: i32,
) -> bool {
    let saved = saved_offset(plan, state, partition);
    let key = transfers::boundary_key(plan.source.instance@, plan.source.topic@, partition);
    saved is Some && bounds.contains_key(key) && !(bounds[key].low <= saved->0
        <= bounds[key].high)
}

/// A saved offset must lie between the watermarks of its source partition: no
/// other start is put in its place.
pub open spec fn outside_fault(
    plan: TransferPlan,
    state: OffsetState,
    bounds: Map<Seq<char>, Watermarks>,
    partition: i32,
) -> Option<FailureView> {
    let saved = saved_offset(plan, state, partition);
    let key = transfers::boundary_key(plan.source.instance@, plan.source.topic@, partition);
    if is_outside(plan, state, bounds, partition) {
        Some(
            failure::failed(
                "saved offset "@ + text::decimal(saved->0 as int)
                    + " is outside source watermarks "@ + text::decimal(bounds[key].low as int)
                    + " to "@ + text::decimal(bounds[key].high as int) + " for "@
                    + plan.source.instance@ + ":"@ + plan.source.topic@ + " partition "@
                    + text::decimal(partition as int),
            ),
        )
    } else {
        None
    }
}

/// What keeps the client library from taking a partition: a zero byte in the
/// topic's name, or a negative offset.
pub open spec fn refused_fault(
    plan: TransferPlan,
    state: OffsetState,
    partition: i32,
) -> Option<FailureView> {
    let message = "failed to assign "@ + plan.source.instance@ + ":"@ + plan.source.topic@
        + " partition "@ + text::decimal(partition as int);
    failure::first(
        failure::zero_fault(plan.source.topic@, message),
        if !partition_list::acceptable(partition_start(plan, state, partition).offset) {
            Some(
                FailureView {
                    message,
                    cause: Some(
                        "Set partition offset error: InvalidArgument (Local: Invalid argument or configuration)"@,
                    ),
                },
            )
        } else {
            None
        },
    )
}

/// The first thing wrong with where a transfer's partitions start.
pub open spec fn starts_fault(
    plan: TransferPlan,
    state: OffsetState,
    ends: Map<Seq<char>, i64>,
    bounds: Map<Seq<char>, Watermarks>,
    partitions: Seq<MetadataPartition>,
) -> Option<FailureView>
    decreases partitions.len(),
{
    if partitions.len() == 0 {
        None
    } else {
        failure::first(
            starts_fault(plan, state, ends, bounds, partitions.drop_last()),
            failure::first(
                beyond_end_fault(plan, state, ends, partitions.last().id),
                failure::first(
                    outside_fault(plan, state, bounds, partitions.last().id),
                    refused_fault(plan, state, partitions.last().id),
                ),
            ),
        )
    }
}

/// A source topic that the metadata lacks.
pub open spec fn missing_topic(name: Seq<char>) -> FailureView {
    failure::failed("missing metadata for source topic "@ + name)
}

/// The first thing wrong with where some transfers start.
pub open spec fn assignment_fault(
    metadata: Metadata,
    plans: Seq<TransferPlan>,
    state: OffsetState,
    ends: Map<Seq<char>, i64>,
    bounds: Map<Seq<char>, Watermarks>,
) -> Option<FailureView>
    decreases plans.len(),
{
    if plans.len() == 0 {
        None
    } else {
        failure::first(
            assignment_fault(metadata, plans.drop_last(), state, ends, bounds),
            match metadata::topic_of(metadata, plans.last().source.topic@) {
                None => Some(missing_topic(plans.last().source.topic@)),
                Some(topic) => starts_fault(plans.last(), state, ends, bounds, topic.partitions@),
            },
        )
    }
}

proof fn lemma_starts_fault_stays(
    plan: TransferPlan,
    state: OffsetState,
    ends: Map<Seq<char>, i64>,
    bounds: Map<Seq<char>, Watermarks>,
    partitions: Seq<MetadataPartition>,
    count: int,
)
    requires
        0 <= count <= partitions.len(),
        starts_fault(plan, state, ends, bounds, partitions.take(count)) is Some,
    ensures
        starts_fault(plan, state, ends, bounds, partitions) == starts_fault(
            plan,
            state,
            ends,
            bounds,
            partitions.take(count),
        ),
    decreases partitions.len(),
{
    if count < partitions.len() {
        assert(partitions.drop_last().take(count) == partitions.take(count));
        lemma_starts_fault_stays(plan, state, ends, bounds, partitions.drop_last(), count);
    } else {
        assert(partitions.take(count) == partitions);
    }
}

proof fn lemma_assignment_fault_stays(
    metadata: Metadata,
    plans: Seq<TransferPlan>,
    state: OffsetState,
    ends: Map<Seq<char>, i64>,
    bounds: Map<Seq<char>, Watermarks>,
    count: int,
)
    requires
        0 <= count <= plans.len(),
        assignment_fault(metadata, plans.take(count), state, ends, bounds) is Some,
    ensures
        assignment_fault(metadata, plans, state, ends, bounds) == assignment_fault(
            metadata,
            plans.take(count),
            state,
            ends,
            bounds,
        ),
    decreases plans.len(),
{
    if count < plans.len() {
        assert(plans.drop_last().take(count) == plans.take(count));
        lemma_assignment_fault_stays(metadata, plans.drop_last(), state, ends, bounds, count);
    } else {
        assert(plans.take(count) == plans);
    }
}

/// The offset that a transfer's partition has been saved with.
pub(crate) fn saved_for(plan: &TransferPlan, state: &OffsetState, partition: i32) -> (r: Option<i64>)
    ensures
        r == saved_offset(*plan, *state, partition),
{
    if plan.kind == TransferKind::Clone {
        state.next_offset(plan.destination_topic.as_str(), partition)
    } else {
        None
    }
}

fn check_end(
    plan: &TransferPlan,
    state: &OffsetState,
    ends: &CloneEndOffsets,
    partition: i32,
) -> (r: Result<(), Failure>)
    ensures
        failure::tells(r, beyond_end_fault(*plan, *state, ends@, partition)),
{
    let key = transfers::clone_boundary_key(
        plan.source.instance.as_str(),
        plan.source.topic.as_str(),
        partition,
    );
    if let Some(saved) = saved_for(plan, state, partition) {
        if let Some(end) = ends.get(key.as_str()) {
            if saved > *end {
                let mut message = text::join5(
                    "saved offset ",
                    text::decimal_i64(saved).as_str(),
                    " is beyond captured end offset ",
                    text::decimal_i64(*end).as_str(),
                    " for ",
                );
                message.append(plan.source.instance.as_str());
                message.append(":");
                message.append(plan.source.topic.as_str());
                message.append(" partition ");
                message.append(text::decimal_i64(partition as i64).as_str());
                return Err(fail(message));
            }
        }
    }
    Ok(())
}

fn check_inside(
    plan: &TransferPlan,
    state: &OffsetState,
    bounds: &TextMap<Watermarks>,
    partition: i32,
) -> (r: Result<(), Failure>)
    ensures
        failure::tells(r, outside_fault(*plan, *state, bounds@, partition)),
{
    let key = transfers::clone_boundary_key(
        plan.source.instance.as_str(),
        plan.source.topic.as_str(),
        partition,
    );
    if let Some(saved) = saved_for(plan, state, partition) {
        if let Some(marks) = bounds.get(key.as_str()) {
            if saved < marks.low || saved > marks.high {
                let mut message = text::join5(
                    "saved offset ",
                    text::decimal_i64(saved).as_str(),
                    " is outside source watermarks ",
                    text::decimal_i64(marks.low).as_str(),
                    " to ",
                );
                message.append(text::decimal_i64(marks.high).as_str());
                message.append(" for ");
                message.append(plan.source.instance.as_str());
                message.append(":");
                message.append(plan.source.topic.as_str());
                message.append(" partition ");
                message.append(text::decimal_i64(partition as i64).as_str());
                return Err(fail(message));
            }
        }
    }
    Ok(())
}

fn check_acceptable(plan: &TransferPlan, state: &OffsetState, partition: i32) -> (r: Result<
    (),
    Failure,
>)
    ensures
        failure::tells(r, refused_fault(*plan, *state, partition)),
{
    let mut message = text::join5(
        "failed to assign ",
        plan.source.instance.as_str(),
        ":",
        plan.source.topic.as_str(),
        " partition ",
    );
    message.append(text::decimal_i64(partition as i64).as_str());
    if let Err(failure) = require_no_zero(plan.source.topic.as_str(), message.as_str()) {
        return Err(failure);
    }
    if let StartOffset::At(offset) = transfers::initial_offset(
        plan,
        saved_for(plan, state, partition),
    ) {
        if offset < 0 {
            return Err(
                Failure {
                    message,
                    cause: Some(
                        "Set partition offset error: InvalidArgument (Local: Invalid argument or configuration)".to_owned(),
                    ),
                },
            );
        }
    }
    Ok(())
}

fn assign_plan(
    assignment: &mut Vec<PartitionStart>,
    plan: &TransferPlan,
    partitions: &Vec<MetadataPartition>,
    state: &OffsetState,
    ends: &CloneEndOffsets,
    bounds: &TextMap<Watermarks>,
) -> (r: Result<(), Failure>)
    ensures
        failure::tells(r, starts_fault(*plan, *state, ends@, bounds@, partitions@)),
        r is Ok ==> start_views(final(assignment)@) == start_views(old(assignment)@) + plan_starts(
            *plan,
            *state,
            partitions@,
        ),
{
    let ghost before = start_views(assignment@);
    let mut i: usize = 0;
    assert(before + plan_starts(*plan, *state, partitions@.take(0)) == before);
    while i < partitions.len()
        invariant
            i <= partitions@.len(),
            starts_fault(*plan, *state, ends@, bounds@, partitions@.take(i as int)) is None,
            start_views(assignment@) == before + plan_starts(
                *plan,
                *state,
                partitions@.take(i as int),
            ),
        decreases partitions@.len() - i,
    {
        let ghost front = partitions@.take(i as int);
        let ghost more = partitions@.take(i + 1);
        let ghost so_far = assignment@;
        proof {
            assert(more.drop_last() == front);
            if starts_fault(*plan, *state, ends@, bounds@, more) is Some {
                lemma_starts_fault_stays(*plan, *state, ends@, bounds@, partitions@, i + 1);
            }
        }
        let id: i32 = partitions[i].id;
        if let Err(failure) = check_end(plan, state, ends, id) {
            return Err(failure);
        }
        if let Err(failure) = check_inside(plan, state, bounds, id) {
            return Err(failure);
        }
        if let Err(failure) = check_acceptable(plan, state, id) {
            return Err(failure);
        }
        let offset = transfers::initial_offset(plan, saved_for(plan, state, id));
        let start = PartitionStart { topic: plan.source.topic.clone(), partition: id, offset };
        let ghost view = start@;
        assignment.push(start);
        proof {
            assert(view == partition_start(*plan, *state, id));
            assert(start_views(assignment@) == start_views(so_far).push(view));
            assert(plan_starts(*plan, *state, more) == plan_starts(*plan, *state, front).push(
                view,
            ));
            assert(start_views(assignment@) == before + plan_starts(*plan, *state, more));
        }
        i = i + 1;
    }
    assert(partitions@.take(i as int) == partitions@);
    Ok(())
}

/// Works out where reading the partitions of some transfers starts: a clone
/// where it left off, or at the beginning; a stream at the end. A clone that
/// left off outside the watermarks of its source is refused.
pub fn plan_assignment(
    metadata: &Metadata,
    plans: &[TransferPlan],
    state: &OffsetState,
    end_offsets: &CloneEndOffsets,
    watermarks: &TextMap<Watermarks>,
) -> (r: Result<Vec<PartitionStart>, Failure>)
    ensures
        failure::tells(r, assignment_fault(*metadata, plans@, *state, end_offsets@, watermarks@)),
        r matches Ok(assignment) ==> start_views(assignment@) == assignment_of(
            *metadata,
            plans@,
            *state,
        ),
{
    let mut assignment: Vec<PartitionStart> = Vec::new();
    let mut i: usize = 0;
    assert(start_views(assignment@) == Seq::<StartView>::empty());
    assert(plans@.take(0) == Seq::<TransferPlan>::empty());
    while i < plans.len()
        invariant
            i <= plans@.len(),
            assignment_fault(
                *metadata,
                plans@.take(i as int),
                *state,
                end_offsets@,
                watermarks@,
            ) is None,
            start_views(assignment@) == assignment_of(*metadata, plans@.take(i as int), *state),
        decreases plans@.len() - i,
    {
        let plan = &plans[i];
        proof {
            assert(plans@.take(i + 1).drop_last() == plans@.take(i as int));
            if assignment_fault(
                *metadata,
                plans@.take(i + 1),
                *state,
                end_offsets@,
                watermarks@,
            ) is Some {
                lemma_assignment_fault_stays(
                    *metadata,
                    plans@,
                    *state,
                    end_offsets@,
                    watermarks@,
                    i + 1,
                );
            }
        }
        match metadata.find(plan.source.topic.as_str()) {
            None => {
                return Err(
                    fail(
                        text::join2(
                            "missing metadata for source topic ",
                            plan.source.topic.as_str(),
                        ),
                    ),
                );
            },
            Some(topic) => {
                if let Err(failure) = assign_plan(
                    &mut assignment,
                    plan,
                    &topic.partitions,
                    state,
                    end_offsets,
                    watermarks,
                ) {
                    return Err(failure);
                }
            },
        }
        i = i + 1;
    }
    assert(plans@.take(i as int) == plans@);
    Ok(assignment)
}

/// The entries that some starts make in the client library's list.
pub open spec fn entries_of(starts: Seq<StartView>) -> Seq<EntryView>
    decreases starts.len(),
{
    if starts.len() == 0 {
        Seq::empty()
    } else {
        partition_list::with_entry(
            entries_of(starts.drop_last()),
            starts.last().topic,
            starts.last().partition,
            starts.last().offset,
        )
    }
}

/// Starts of different partitions make just their own entries, in order.
pub proof fn law_different_partitions_are_listed(starts: Seq<StartView>)
    requires
        forall|i: int, j: int| #![trigger starts[i], starts[j]]
            0 <= i < j < starts.len() ==> starts[i].topic != starts[j].topic || starts[i].partition
                != starts[j].partition,
    ensures
        entries_of(starts) == starts.map_values(
            |start: StartView|
                EntryView {
                    topic: start.topic,
                    partition: start.partition,
                    start: Some(start.offset),
                },
        ),
    decreases starts.len(),
{
    let listed = |start: StartView|
        EntryView { topic: start.topic, partition: start.partition, start: Some(start.offset) };
    if starts.len() > 0 {
        let front = starts.drop_last();
        let last = starts.last();
        assert forall|i: int, j: int| #![trigger front[i], front[j]]
            0 <= i < j < front.len() implies front[i].topic != front[j].topic
            || front[i].partition != front[j].partition by {
            assert(starts[i] == front[i]);
            assert(starts[j] == front[j]);
        }
        law_different_partitions_are_listed(front);
        let entries = entries_of(front);
        let more = partition_list::with_vacant(entries, last.topic, last.partition);
        assert forall|i: int| 0 <= i < entries.len() implies (#[trigger] more[i]).topic
            != last.topic || more[i].partition != last.partition by {
            assert(more[i] == listed(front[i]));
            assert(starts[i] == front[i]);
            assert(starts[starts.len() - 1] == last);
        }
        lemma_entry_position(more, last.topic, last.partition, entries.len() as int);
        assert(entries_of(starts) =~= starts.map_values(listed));
    } else {
        assert(entries_of(starts) =~= starts.map_values(listed));
    }
}

proof fn lemma_entry_position(
    entries: Seq<EntryView>,
    topic: Seq<char>,
    partition: i32,
    at: int,
)
    requires
        0 <= at < entries.len(),
        entries[at].topic == topic,
        entries[at].partition == partition,
        forall|i: int|
            0 <= i < at ==> (#[trigger] entries[i]).topic != topic || entries[i].partition
                != partition,
    ensures
        partition_list::entry_position(entries, topic, partition) == at,
    decreases at,
{
    if at > 0 {
        let rest = entries.drop_first();
        assert(entries[0].topic != topic || entries[0].partition != partition);
        assert forall|i: int| 0 <= i < at - 1 implies (#[trigger] rest[i]).topic != topic
            || rest[i].partition != partition by {
            assert(rest[i] == entries[i + 1]);
        }
        lemma_entry_position(rest, topic, partition, at - 1);
    }
}

proof fn lemma_entry_found(entries: Seq<EntryView>, topic: Seq<char>, partition: i32)
    requires
        entries.len() > 0,
        entries.last().topic == topic,
        entries.last().partition == partition,
    ensures
        0 <= partition_list::entry_position(entries, topic, partition) < entries.len(),
    decreases entries.len(),
{
    if entries.len() > 1 {
        lemma_entry_found(entries.drop_first(), topic, partition);
    }
}

proof fn lemma_entries_count(starts: Seq<StartView>)
    ensures
        entries_of(starts).len() == starts.len(),
    decreases starts.len(),
{
    if starts.len() > 0 {
        lemma_entries_count(starts.drop_last());
        let last = starts.last();
        let more = partition_list::with_vacant(
            entries_of(starts.drop_last()),
            last.topic,
            last.partition,
        );
        lemma_entry_found(more, last.topic, last.partition);
    }
}

/// A start that the client library takes.
pub open spec fn takeable(start: StartView) -> bool {
    &&& partition_list::acceptable(start.offset)
    &&& text::first_zero(encode_utf8(start.topic)) == encode_utf8(start.topic).len()
}

fn fill_list(starts: &Vec<PartitionStart>) -> (r: TopicPartitionList)
    requires
        starts@.len() < i32::MAX,
        forall|i: int| 0 <= i < starts@.len() ==> takeable((#[trigger] starts@[i])@),
    ensures
        partition_list::listed(r) == entries_of(start_views(starts@)),
{
    let ghost views = start_views(starts@);
    let mut list = partition_list::list_new();
    let mut i: usize = 0;
    assert(views.take(0) == Seq::<StartView>::empty());
    while i < starts.len()
        invariant
            i <= starts@.len() < i32::MAX,
            views == start_views(starts@),
            forall|j: int| 0 <= j < starts@.len() ==> takeable((#[trigger] starts@[j])@),
            partition_list::listed(list) == entries_of(views.take(i as int)),
        decreases starts@.len() - i,
    {
        let start = &starts[i];
        proof {
            lemma_entries_count(views.take(i as int));
            assert(views.take(i + 1).drop_last() == views.take(i as int));
            assert(views.take(i + 1).last() == start@);
            assert(takeable(starts@[i as int]@));
        }
        partition_list::list_add(
            &mut list,
            start.topic.as_str(),
            start.partition,
            start.offset,
        );
        i = i + 1;
    }
    assert(views.take(i as int) == views);
    list
}

proof fn lemma_plan_takeable(
    plan: TransferPlan,
    state: OffsetState,
    ends: Map<Seq<char>, i64>,
    bounds: Map<Seq<char>, Watermarks>,
    partitions: Seq<MetadataPartition>,
    i: int,
)
    requires
        starts_fault(plan, state, ends, bounds, partitions) is None,
        0 <= i < partitions.len(),
    ensures
        takeable(plan_starts(plan, state, partitions)[i]),
    decreases partitions.len(),
{
    if i < partitions.len() - 1 {
        lemma_plan_takeable(plan, state, ends, bounds, partitions.drop_last(), i);
    } else {
        lemma_zero_position(encode_utf8(plan.source.topic@));
    }
}

/// The first zero byte is inside some bytes, or behind them.
pub proof fn lemma_zero_position(bytes: Seq<u8>)
    ensures
        0 <= text::first_zero(bytes) <= bytes.len(),
    decreases bytes.len(),
{
    if bytes.len() > 0 && bytes[0] != 0 {
        lemma_zero_position(bytes.drop_first());
    }
}

proof fn lemma_takeable(
    metadata: Metadata,
    plans: Seq<TransferPlan>,
    state: OffsetState,
    ends: Map<Seq<char>, i64>,
    bounds: Map<Seq<char>, Watermarks>,
    i: int,
)
    requires
        assignment_fault(metadata, plans, state, ends, bounds) is None,
        0 <= i < assignment_of(metadata, plans, state).len(),
    ensures
        takeable(assignment_of(metadata, plans, state)[i]),
    decreases plans.len(),
{
    let earlier = assignment_of(metadata, plans.drop_last(), state);
    if i < earlier.len() {
        lemma_takeable(metadata, plans.drop_last(), state, ends, bounds, i);
    } else {
        let topic = metadata::topic_of(metadata, plans.last().source.topic@)->0;
        lemma_plan_takeable(
            plans.last(),
            state,
            ends,
            bounds,
            topic.partitions@,
            i - earlier.len(),
        );
    }
}

/// The first thing wrong with where some transfers start, or with their number:
/// the client library counts partitions in 31 bits.
pub open spec fn list_fault(
    metadata: Metadata,
    plans: Seq<TransferPlan>,
    state: OffsetState,
    ends: Map<Seq<char>, i64>,
    bounds: Map<Seq<char>, Watermarks>,
) -> Option<FailureView> {
    failure::first(
        assignment_fault(metadata, plans, state, ends, bounds),
        if assignment_of(metadata, plans, state).len() >= i32::MAX {
            Some(failure::failed("too many partitions to assign"@))
        } else {
            None
        },
    )
}

/// Lists where reading the partitions of some transfers starts: a clone where it
/// left off, or at the beginning; a stream at the end. A clone that left off
/// outside the watermarks of its source is refused.
pub fn build_assignment(
    metadata: &Metadata,
    plans: &[TransferPlan],
    state: &OffsetState,
    end_offsets: &CloneEndOffsets,
    watermarks: &TextMap<Watermarks>,
) -> (r: Result<TopicPartitionList, Failure>)
    ensures
        failure::tells(r, list_fault(*metadata, plans@, *state, end_offsets@, watermarks@)),
        r matches Ok(list) ==> partition_list::listed(list) == entries_of(
            assignment_of(*metadata, plans@, *state),
        ),
{
    let starts = match plan_assignment(metadata, plans, state, end_offsets, watermarks) {
        Ok(starts) => starts,
        Err(failure) => {
            return Err(failure);
        },
    };
    if starts.len() >= 0x7fff_ffff {
        return Err(fail("too many partitions to assign".to_owned()));
    }
    proof {
        assert forall|i: int| 0 <= i < starts@.len() implies takeable(
            (#[trigger] starts@[i])@,
        ) by {
            assert(start_views(starts@)[i] == starts@[i]@);
            lemma_takeable(*metadata, plans@, *state, end_offsets@, watermarks@, i);
        }
    }
    Ok(fill_list(&starts))
}

/// What is wrong with a source topic whose partitions are to be counted.
pub open spec fn count_fault(
    metadata: Metadata,
    source: Seq<char>,
    topic: Seq<char>,
) -> Option<FailureView> {
    match metadata::topic_of(metadata, topic) {
        None => Some(
            failure::failed(
                "source topic "@ + topic + " not found in metadata for source "@ + source,
            ),
        ),
        Some(found) => match found.error {
            Some(error) => Some(
                failure::failed(
                    "source topic "@ + topic + " metadata error on source "@ + source + ": "@
                        + error@,
                ),
            ),
            None => None,
        },
    }
}

/// The first thing wrong with the source topics of some transfers.
pub open spec fn counts_fault(
    metadata: Metadata,
    source: Seq<char>,
    plans: Seq<TransferPlan>,
) -> Option<FailureView>
    decreases plans.len(),
{
    if plans.len() == 0 {
        None
    } else {
        failure::first(
            counts_fault(metadata, source, plans.drop_last()),
            count_fault(metadata, source, plans.last().source.topic@),
        )
    }
}

/// The partition counts of the source topics of some transfers, added to
/// others.
pub open spec fn counted(
    counts: Map<Seq<char>, i32>,
    metadata: Metadata,
    source: Seq<char>,
    plans: Seq<TransferPlan>,
) -> Map<Seq<char>, i32>
    decreases plans.len(),
{
    if plans.len() == 0 {
        counts
    } else {
        counted(counts, metadata, source, plans.drop_last()).insert(
            source + ":"@ + plans.last().source.topic@,
            metadata::topic_of(
                metadata,
                plans.last().source.topic@,
            )->0.partitions@.len() as i32,
        )
    }
}

proof fn lemma_counts_fault_stays(
    metadata: Metadata,
    source: Seq<char>,
    plans: Seq<TransferPlan>,
    count: int,
)
    requires
        0 <= count <= plans.len(),
        counts_fault(metadata, source, plans.take(count)) is Some,
    ensures
        counts_fault(metadata, source, plans) == counts_fault(
            metadata,
            source,
            plans.take(count),
        ),
    decreases plans.len(),
{
    if count < plans.len() {
        assert(plans.drop_last().take(count) == plans.take(count));
        lemma_counts_fault_stays(metadata, source, plans.drop_last(), count);
    } else {
        assert(plans.take(count) == plans);
    }
}

fn count_partitions(metadata: &Metadata, source: &str, topic: &str) -> (r: Result<i32, Failure>)
    ensures
        failure::tells(r, count_fault(*metadata, source@, topic@)),
        r matches Ok(count) ==> count == metadata::topic_of(
            *metadata,
            topic@,
        )->0.partitions@.len() as i32,
{
    match metadata.find(topic) {
        None => {
            let mut message = text::join3(
                "source topic ",
                topic,
                " not found in metadata for source ",
            );
            message.append(source);
            Err(fail(message))
        },
        Some(found) => match &found.error {
            Some(error) => {
                let mut message = text::join5(
                    "source topic ",
                    topic,
                    " metadata error on source ",
                    source,
                    ": ",
                );
                message.append(error.as_str());
                Err(fail(message))
            },
            None => Ok(found.partition_count()),
        },
    }
}

/// Counts the partitions of the source topics of a source's transfers, and adds
/// them to the counts of other sources.
pub fn count_source_partitions(
    counts: TextMap<i32>,
    source: &str,
    plans: &[TransferPlan],
    metadata: &Metadata,
) -> (r: Result<TextMap<i32>, Failure>)
    ensures
        failure::tells(r, counts_fault(*metadata, source@, plans@)),
        r matches Ok(all) ==> all@ == counted(counts@, *metadata, source@, plans@),
{
    let ghost before = counts@;
    let mut counts = counts;
    let mut i: usize = 0;
    assert(plans@.take(0) == Seq::<TransferPlan>::empty());
    while i < plans.len()
        invariant
            i <= plans@.len(),
            counts_fault(*metadata, source@, plans@.take(i as int)) is None,
            counts@ == counted(before, *metadata, source@, plans@.take(i as int)),
        decreases plans@.len() - i,
    {
        proof {
            assert(plans@.take(i + 1).drop_last() == plans@.take(i as int));
            if counts_fault(*metadata, source@, plans@.take(i + 1)) is Some {
                lemma_counts_fault_stays(*metadata, source@, plans@, i + 1);
            }
        }
        let topic = plans[i].source.topic.as_str();
        match count_partitions(metadata, source, topic) {
            Ok(count) => {
                counts.insert(text::join3(source, ":", topic), count);
            },
            Err(failure) => {
                return Err(failure);
            },
        }
        i = i + 1;
    }
    assert(plans@.take(i as int) == plans@);
    Ok(counts)
}

/// The key that a transfer's partition count is found under.
pub open spec fn count_key(topic: TopicView) -> Seq<char> {
    topics::reference_text(topic.transfer->0.source)
}

/// Why there is no partition count for a topic.
pub open spec fn desired_fault(
    topic: TopicView,
    counts: Map<Seq<char>, i32>,
    archive_partitions: Option<usize>,
) -> Option<FailureView> {
    if topic.transfer is Some {
        if counts.contains_key(count_key(topic)) {
            None
        } else {
            Some(
                failure::failed(
                    "missing source partition count for transfer "@ + count_key(topic)
                        + " to destination topic "@ + topic.name,
                ),
            )
        }
    } else if topic.restore is Some && archive_partitions is Some {
        if archive_partitions->0 > i32::MAX {
            Some(failure::failed("archive partition count does not fit Kafka"@))
        } else {
            None
        }
    } else if topic.static_topic is Some && topic.restore is None {
        None
    } else {
        Some(failure::failed("destination topic "@ + topic.name + " has no partition source"@))
    }
}

/// How many partitions a topic is to have: as many as its source topic, as its
/// archive, or as configured.
pub open spec fn desired_of(
    topic: TopicView,
    counts: Map<Seq<char>, i32>,
    archive_partitions: Option<usize>,
) -> i32 {
    if topic.transfer is Some {
        counts[count_key(topic)]
    } else if topic.restore is Some {
        archive_partitions->0 as i32
    } else {
        topic.static_topic->0.partitions
    }
}

/// How many partitions a topic is to have: as many as its source topic, as its
/// archive, or as configured.
pub fn desired_partition_count(
    topic: &ManagedTopic,
    source_partition_counts: &TextMap<i32>,
    archive_partitions: Option<usize>,
) -> (r: Result<i32, Failure>)
    ensures
        failure::tells(r, desired_fault(topic@, source_partition_counts@, archive_partitions)),
        r matches Ok(count) ==> count == desired_of(
            topic@,
            source_partition_counts@,
            archive_partitions,
        ),
{
    if let Some(transfer) = &topic.transfer {
        let key = transfer.source.display();
        return match source_partition_counts.get(key.as_str()) {
            Some(count) => Ok(*count),
            None => {
                let mut message = text::join3(
                    "missing source partition count for transfer ",
                    key.as_str(),
                    " to destination topic ",
                );
                message.append(topic.name.as_str());
                Err(fail(message))
            },
        };
    }
    if topic.restore.is_some() {
        if let Some(count) = archive_partitions {
            return if count > 0x7fff_ffff {
                Err(fail("archive partition count does not fit Kafka".to_owned()))
            } else {
                Ok(count as i32)
            };
        }
    } else if let Some(static_topic) = &topic.static_topic {
        return Ok(static_topic.partitions);
    }
    Err(
        fail(
            text::join3("destination topic ", topic.name.as_str(), " has no partition source"),
        ),
    )
}

/// A clone starts where it left off, or at the beginning where nothing is
/// saved, and a stream starts at the end whatever is saved.
pub proof fn law_transfers_start(plan: TransferPlan, state: OffsetState, partition: i32)
    ensures
        plan.kind == TransferKind::Stream ==> partition_start(plan, state, partition).offset
            == StartOffset::End,
        plan.kind == TransferKind::Clone ==> partition_start(plan, state, partition).offset == (
        match state.offset_of(plan.destination_topic@, partition) {
            Some(offset) => StartOffset::At(offset),
            None => StartOffset::Beginning,
        }),
{
}

/// A clone whose topic has been cleared from the ledger starts over.
pub proof fn law_cleared_clones_start_over(plan: TransferPlan, state: OffsetState, partition: i32)
    requires
        plan.kind == TransferKind::Clone,
        state.clone_of(plan.destination_topic@) is None,
    ensures
        partition_start(plan, state, partition).offset == StartOffset::Beginning,
{
}

proof fn lemma_outside_start(
    plan: TransferPlan,
    state: OffsetState,
    ends: Map<Seq<char>, i64>,
    bounds: Map<Seq<char>, Watermarks>,
    partitions: Seq<MetadataPartition>,
    i: int,
)
    requires
        0 <= i < partitions.len(),
        is_outside(plan, state, bounds, partitions[i].id),
    ensures
        starts_fault(plan, state, ends, bounds, partitions) is Some,
    decreases partitions.len(),
{
    if i < partitions.len() - 1 {
        lemma_outside_start(plan, state, ends, bounds, partitions.drop_last(), i);
    }
}

/// A clone that left off outside the watermarks of a source partition is
/// refused, whatever else is to be read: no other start takes the place of a
/// checkpoint that can no longer be used.
pub proof fn law_unusable_checkpoints_are_refused(
    metadata: Metadata,
    plans: Seq<TransferPlan>,
    state: OffsetState,
    ends: Map<Seq<char>, i64>,
    bounds: Map<Seq<char>, Watermarks>,
    at: int,
    i: int,
)
    requires
        0 <= at < plans.len(),
        metadata::topic_of(metadata, plans[at].source.topic@) is Some,
        0 <= i < metadata::topic_of(metadata, plans[at].source.topic@)->0.partitions@.len(),
        is_outside(
            plans[at],
            state,
            bounds,
            metadata::topic_of(metadata, plans[at].source.topic@)->0.partitions@[i].id,
        ),
    ensures
        list_fault(metadata, plans, state, ends, bounds) is Some,
    decreases plans.len(),
{
    if at < plans.len() - 1 {
        law_unusable_checkpoints_are_refused(
            metadata,
            plans.drop_last(),
            state,
            ends,
            bounds,
            at,
            i,
        );
        lemma_counted_starts(metadata, plans, state);
    } else {
        lemma_outside_start(
            plans[at],
            state,
            ends,
            bounds,
            metadata::topic_of(metadata, plans[at].source.topic@)->0.partitions@,
            i,
        );
    }
}

proof fn lemma_counted_starts(metadata: Metadata, plans: Seq<TransferPlan>, state: OffsetState)
    requires
        plans.len() > 0,
    ensures
        assignment_of(metadata, plans.drop_last(), state).len() <= assignment_of(
            metadata,
            plans,
            state,
        ).len(),
{
}

/// What is read for some transfers is every partition of the source topic of each
/// of them, transfer after transfer and in the order of the metadata: of a clone
/// from where it left off, or else from the beginning, and of a stream from the
/// end.
pub proof fn law_every_partition_is_read(
    metadata: Metadata,
    plans: Seq<TransferPlan>,
    state: OffsetState,
)
    ensures
        assignment_of(metadata, plans, state) == plans.flat_map(
            |plan: TransferPlan|
                metadata::topic_of(metadata, plan.source.topic@)->0.partitions@.map_values(
                    |partition: MetadataPartition|
                        StartView {
                            topic: plan.source.topic@,
                            partition: partition.id,
                            offset: match plan.kind {
                                TransferKind::Stream => StartOffset::End,
                                TransferKind::Clone => match state.offset_of(
                                    plan.destination_topic@,
                                    partition.id,
                                ) {
                                    Some(offset) => StartOffset::At(offset),
                                    None => StartOffset::Beginning,
                                },
                            },
                        },
                ),
        ),
    decreases plans.len(),
{
    let starts = |plan: TransferPlan|
        metadata::topic_of(metadata, plan.source.topic@)->0.partitions@.map_values(
            |partition: MetadataPartition|
                StartView {
                    topic: plan.source.topic@,
                    partition: partition.id,
                    offset: match plan.kind {
                        TransferKind::Stream => StartOffset::End,
                        TransferKind::Clone => match state.offset_of(
                            plan.destination_topic@,
                            partition.id,
                        ) {
                            Some(offset) => StartOffset::At(offset),
                            None => StartOffset::Beginning,
                        },
                    },
                },
        );
    if plans.len() > 0 {
        let front = plans.drop_last();
        law_every_partition_is_read(metadata, front, state);
        let last = plans.last();
        assert(starts(last) =~= plan_starts(
            last,
            state,
            metadata::topic_of(metadata, last.source.topic@)->0.partitions@,
        ));
        assert(plans.map_values(starts) =~= front.map_values(starts).push(starts(last)));
        front.map_values(starts).lemma_flatten_push(starts(last));
        assert(assignment_of(metadata, plans, state) =~= plans.flat_map(starts));
    } else {
        assert(plans.map_values(starts) =~= Seq::empty());
        assert(assignment_of(metadata, plans, state) =~= plans.flat_map(starts));
    }
}

/// Every partition of every transfer's source topic is among what is read.
pub proof fn law_every_partition_is_assigned(
    metadata: Metadata,
    plans: Seq<TransferPlan>,
    state: OffsetState,
    at: int,
    i: int,
)
    requires
        0 <= at < plans.len(),
        0 <= i < metadata::topic_of(metadata, plans[at].source.topic@)->0.partitions@.len(),
    ensures
        assignment_of(metadata, plans, state).contains(
            StartView {
                topic: plans[at].source.topic@,
                partition: metadata::topic_of(
                    metadata,
                    plans[at].source.topic@,
                )->0.partitions@[i].id,
                offset: match plans[at].kind {
                    TransferKind::Stream => StartOffset::End,
                    TransferKind::Clone => match state.offset_of(
                        plans[at].destination_topic@,
                        metadata::topic_of(
                            metadata,
                            plans[at].source.topic@,
                        )->0.partitions@[i].id,
                    ) {
                        Some(offset) => StartOffset::At(offset),
                        None => StartOffset::Beginning,
                    },
                },
            },
        ),
    decreases plans.len(),
{
    let all = assignment_of(metadata, plans, state);
    let earlier = assignment_of(metadata, plans.drop_last(), state);
    let partitions = metadata::topic_of(metadata, plans[at].source.topic@)->0.partitions@;
    let start = partition_start(plans[at], state, partitions[i].id);
    if at < plans.len() - 1 {
        law_every_partition_is_assigned(metadata, plans.drop_last(), state, at, i);
        let j = choose|j: int| 0 <= j < earlier.len() && earlier[j] == start;
        assert(all[j] == start);
    } else {
        assert(plan_starts(plans[at], state, partitions)[i] == start);
        assert(all[earlier.len() + i] == start);
    }
}

/// Where a partition may start: what a clone has saved is not behind the captured
/// end, is between the watermarks, and is not negative; and the client library
/// takes the topic's name.
proof fn lemma_start_faults(
    plan: TransferPlan,
    state: OffsetState,
    ends: Map<Seq<char>, i64>,
    bounds: Map<Seq<char>, Watermarks>,
    partitions: Seq<MetadataPartition>,
)
    ensures
        starts_fault(plan, state, ends, bounds, partitions) is None <==> forall|i: int|
            0 <= i < partitions.len() ==> {
                let key = transfers::boundary_key(
                    plan.source.instance@,
                    plan.source.topic@,
                    (#[trigger] partitions[i]).id,
                );
                &&& !encode_utf8(plan.source.topic@).contains(0)
                &&& plan.kind == TransferKind::Clone ==> (state.offset_of(
                    plan.destination_topic@,
                    partitions[i].id,
                ) matches Some(saved) ==> {
                    &&& 0 <= saved
                    &&& ends.contains_key(key) ==> saved <= ends[key]
                    &&& bounds.contains_key(key) ==> bounds[key].low <= saved <= bounds[key].high
                })
            },
    decreases partitions.len(),
{
    if partitions.len() > 0 {
        let front = partitions.drop_last();
        lemma_start_faults(plan, state, ends, bounds, front);
        let id = partitions.last().id;
        failure::law_zero_bytes_are_refused(
            plan.source.topic@,
            "failed to assign "@ + plan.source.instance@ + ":"@ + plan.source.topic@
                + " partition "@ + text::decimal(id as int),
        );
        assert(forall|i: int| 0 <= i < front.len() ==> partitions[i] == #[trigger] front[i]);
        let last_ok = {
            let key = transfers::boundary_key(plan.source.instance@, plan.source.topic@, id);
            &&& !encode_utf8(plan.source.topic@).contains(0)
            &&& plan.kind == TransferKind::Clone ==> (state.offset_of(
                plan.destination_topic@,
                id,
            ) matches Some(saved) ==> {
                &&& 0 <= saved
                &&& ends.contains_key(key) ==> saved <= ends[key]
                &&& bounds.contains_key(key) ==> bounds[key].low <= saved <= bounds[key].high
            })
        };
        assert(last_ok <==> failure::first(
            beyond_end_fault(plan, state, ends, id),
            failure::first(
                outside_fault(plan, state, bounds, id),
                refused_fault(plan, state, id),
            ),
        ) is None);
        if starts_fault(plan, state, ends, bounds, partitions) is None {
            assert forall|i: int| 0 <= i < partitions.len() implies {
                let key = transfers::boundary_key(
                    plan.source.instance@,
                    plan.source.topic@,
                    (#[trigger] partitions[i]).id,
                );
                &&& !encode_utf8(plan.source.topic@).contains(0)
                &&& plan.kind == TransferKind::Clone ==> (state.offset_of(
                    plan.destination_topic@,
                    partitions[i].id,
                ) matches Some(saved) ==> {
                    &&& 0 <= saved
                    &&& ends.contains_key(key) ==> saved <= ends[key]
                    &&& bounds.contains_key(key) ==> bounds[key].low <= saved <= bounds[key].high
                })
            } by {
                if i < front.len() {
                    assert(front[i] == partitions[i]);
                }
            }
        } else if starts_fault(plan, state, ends, bounds, front) is None {
            assert(partitions[partitions.len() - 1] == partitions.last());
        }
    }
}

/// Transfers are assigned exactly where each source topic is in the metadata, the
/// client library takes its name, and what a clone has saved of each partition is
/// an offset that can still be used: not negative, not behind the captured end,
/// and between the watermarks of the source.
pub proof fn law_assignments_need_usable_offsets(
    metadata: Metadata,
    plans: Seq<TransferPlan>,
    state: OffsetState,
    ends: Map<Seq<char>, i64>,
    bounds: Map<Seq<char>, Watermarks>,
)
    ensures
        assignment_fault(metadata, plans, state, ends, bounds) is None <==> forall|at: int|
            0 <= at < plans.len() ==> {
                let plan = #[trigger] plans[at];
                let found = metadata::topic_of(metadata, plan.source.topic@);
                &&& found is Some
                &&& forall|i: int|
                    0 <= i < found->0.partitions@.len() ==> {
                        let id = (#[trigger] found->0.partitions@[i]).id;
                        let key = transfers::boundary_key(
                            plan.source.instance@,
                            plan.source.topic@,
                            id,
                        );
                        &&& !encode_utf8(plan.source.topic@).contains(0)
                        &&& plan.kind == TransferKind::Clone ==> (state.offset_of(
                            plan.destination_topic@,
                            id,
                        ) matches Some(saved) ==> {
                            &&& 0 <= saved
                            &&& ends.contains_key(key) ==> saved <= ends[key]
                            &&& bounds.contains_key(key) ==> bounds[key].low <= saved
                                <= bounds[key].high
                        })
                    }
            },
    decreases plans.len(),
{
    if plans.len() > 0 {
        let front = plans.drop_last();
        let last = plans.last();
        law_assignments_need_usable_offsets(metadata, front, state, ends, bounds);
        let found = metadata::topic_of(metadata, last.source.topic@);
        lemma_start_faults(last, state, ends, bounds, found->0.partitions@);
        let usable = |plan: TransferPlan|
            {
                let found = metadata::topic_of(metadata, plan.source.topic@);
                &&& found is Some
                &&& forall|i: int|
                    0 <= i < found->0.partitions@.len() ==> {
                        let id = (#[trigger] found->0.partitions@[i]).id;
                        let key = transfers::boundary_key(
                            plan.source.instance@,
                            plan.source.topic@,
                            id,
                        );
                        &&& !encode_utf8(plan.source.topic@).contains(0)
                        &&& plan.kind == TransferKind::Clone ==> (state.offset_of(
                            plan.destination_topic@,
                            id,
                        ) matches Some(saved) ==> {
                            &&& 0 <= saved
                            &&& ends.contains_key(key) ==> saved <= ends[key]
                            &&& bounds.contains_key(key) ==> bounds[key].low <= saved
                                <= bounds[key].high
                        })
                    }
            };
        assert(plans[plans.len() - 1] == last);
        assert(usable(last) <==> (match found {
            None => false,
            Some(topic) => starts_fault(last, state, ends, bounds, topic.partitions@) is None,
        }));
        assert(assignment_fault(metadata, front, state, ends, bounds) is None <==> forall|at: int|
            0 <= at < front.len() ==> usable(#[trigger] front[at])) by {
            if forall|at: int| 0 <= at < front.len() ==> usable(#[trigger] front[at]) {
                assert forall|at: int| 0 <= at < front.len() implies usable(
                    #[trigger] front[at],
                ) by {}
            }
        }
        if assignment_fault(metadata, plans, state, ends, bounds) is None {
            assert forall|at: int| 0 <= at < plans.len() implies usable(#[trigger] plans[at]) by {
                if at < front.len() {
                    assert(usable(front[at]));
                }
            }
        } else if assignment_fault(metadata, front, state, ends, bounds) is Some {
            let at = choose|at: int| 0 <= at < front.len() && !usable(#[trigger] front[at]);
            assert(!usable(plans[at]));
        } else {
            assert(!usable(plans[plans.len() - 1]));
        }
        assert(assignment_fault(metadata, plans, state, ends, bounds) is None <==> forall|at: int|
            0 <= at < plans.len() ==> usable(#[trigger] plans[at]));
    }
}

/// Partition counts are those of the metadata: each transfer's source topic has
/// its own under its reference, and the counts of other topics stay.
pub proof fn law_partitions_are_counted(
    counts: Map<Seq<char>, i32>,
    metadata: Metadata,
    source: Seq<char>,
    plans: Seq<TransferPlan>,
)
    ensures
        forall|at: int|
            0 <= at < plans.len() ==> {
                let key = source + ":"@ + (#[trigger] plans[at]).source.topic@;
                &&& counted(counts, metadata, source, plans).contains_key(key)
                &&& counted(counts, metadata, source, plans)[key] == metadata::topic_of(
                    metadata,
                    plans[at].source.topic@,
                )->0.partitions@.len() as i32
            },
        forall|key: Seq<char>|
            (forall|at: int|
                0 <= at < plans.len() ==> key != source + ":"@
                    + (#[trigger] plans[at]).source.topic@) ==> {
                &&& #[trigger] counted(counts, metadata, source, plans).contains_key(key)
                    == counts.contains_key(key)
                &&& counts.contains_key(key) ==> counted(counts, metadata, source, plans)[key]
                    == counts[key]
            },
    decreases plans.len(),
{
    if plans.len() > 0 {
        let front = plans.drop_last();
        let last = plans.last();
        law_partitions_are_counted(counts, metadata, source, front);
        let all = counted(counts, metadata, source, plans);
        let earlier = counted(counts, metadata, source, front);
        let last_key = source + ":"@ + last.source.topic@;
        assert forall|at: int| 0 <= at < plans.len() implies {
            let key = source + ":"@ + (#[trigger] plans[at]).source.topic@;
            &&& all.contains_key(key)
            &&& all[key] == metadata::topic_of(
                metadata,
                plans[at].source.topic@,
            )->0.partitions@.len() as i32
        } by {
            let key = source + ":"@ + plans[at].source.topic@;
            if key == last_key {
                reveal_strlit(":");
                assert(key.skip(source.len() as int + 1) =~= plans[at].source.topic@);
                assert(last_key.skip(source.len() as int + 1) =~= last.source.topic@);
            } else {
                assert(front[at] == plans[at]);
            }
        }
        assert forall|key: Seq<char>|
            (forall|at: int|
                0 <= at < plans.len() ==> key != source + ":"@
                    + (#[trigger] plans[at]).source.topic@) implies {
            &&& #[trigger] all.contains_key(key) == counts.contains_key(key)
            &&& counts.contains_key(key) ==> all[key] == counts[key]
        } by {
            assert forall|at: int| 0 <= at < front.len() implies key != source + ":"@
                + (#[trigger] front[at]).source.topic@ by {
                assert(front[at] == plans[at]);
            }
            assert(plans[plans.len() - 1] == last);
            assert(earlier.contains_key(key) == counts.contains_key(key));
        }
    }
}

/// Source partitions are counted exactly where every transfer's source topic is in
/// the metadata, without an error.
pub proof fn law_counts_need_their_topics(
    metadata: Metadata,
    source: Seq<char>,
    plans: Seq<TransferPlan>,
)
    ensures
        counts_fault(metadata, source, plans) is None <==> forall|i: int|
            0 <= i < plans.len() ==> {
                &&& metadata::topic_of(metadata, (#[trigger] plans[i]).source.topic@) is Some
                &&& metadata::topic_of(metadata, plans[i].source.topic@)->0.error is None
            },
    decreases plans.len(),
{
    if plans.len() > 0 {
        let front = plans.drop_last();
        law_counts_need_their_topics(metadata, source, front);
        assert(forall|i: int| 0 <= i < front.len() ==> plans[i] == #[trigger] front[i]);
        if counts_fault(metadata, source, plans) is None {
            assert forall|i: int| 0 <= i < plans.len() implies {
                &&& metadata::topic_of(metadata, (#[trigger] plans[i]).source.topic@) is Some
                &&& metadata::topic_of(metadata, plans[i].source.topic@)->0.error is None
            } by {
                if i < front.len() {
                    assert(front[i] == plans[i]);
                }
            }
        } else if counts_fault(metadata, source, front) is None {
            assert(plans[plans.len() - 1] == plans.last());
        }
    }
}

/// A topic is to have as many partitions as the source topic it is transferred
/// from, as the archive it is restored from, or as it is configured with; and
/// there is no such number exactly where what it is taken from is not known.
pub proof fn law_topics_have_their_origins_partitions(
    topic: TopicView,
    counts: Map<Seq<char>, i32>,
    archive_partitions: Option<usize>,
)
    ensures
        topic.transfer matches Some(transfer) ==> {
            let key = transfer.source.instance + ":"@ + transfer.source.topic;
            &&& desired_fault(topic, counts, archive_partitions) is None <==> counts.contains_key(
                key,
            )
            &&& desired_of(topic, counts, archive_partitions) == counts[key]
        },
        topic.transfer is None && topic.restore is Some ==> {
            &&& desired_fault(topic, counts, archive_partitions) is None <==> (
            archive_partitions is Some && archive_partitions->0 <= i32::MAX)
            &&& archive_partitions matches Some(count) ==> (count <= i32::MAX ==> desired_of(
                topic,
                counts,
                archive_partitions,
            ) == count)
        },
        topic.transfer is None && topic.restore is None ==> {
            &&& desired_fault(topic, counts, archive_partitions) is None <==> topic.static_topic
                is Some
            &&& topic.static_topic matches Some(plan) ==> desired_of(
                topic,
                counts,
                archive_partitions,
            ) == plan.partitions
        },
{
}

/// Transfers are listed exactly where they can be assigned and their partitions can
/// be counted.
pub proof fn law_assignments_are_listed(
    metadata: Metadata,
    plans: Seq<TransferPlan>,
    state: OffsetState,
    ends: Map<Seq<char>, i64>,
    bounds: Map<Seq<char>, Watermarks>,
)
    ensures
        list_fault(metadata, plans, state, ends, bounds) is None <==> assignment_fault(
            metadata,
            plans,
            state,
            ends,
            bounds,
        ) is None && assignment_of(metadata, plans, state).len() < i32::MAX,
{
}

/// Of a transfer's partitions that cannot start, the first is told: for an offset
/// behind the captured end before one outside the watermarks, and for that before
/// what the client library does not take.
pub proof fn law_first_unusable_start_is_told(
    plan: TransferPlan,
    state: OffsetState,
    ends: Map<Seq<char>, i64>,
    bounds: Map<Seq<char>, Watermarks>,
    partitions: Seq<MetadataPartition>,
    at: int,
)
    requires
        0 <= at < partitions.len(),
        starts_fault(plan, state, ends, bounds, partitions.take(at)) is None,
        (match (
            beyond_end_fault(plan, state, ends, partitions[at].id),
            outside_fault(plan, state, bounds, partitions[at].id),
        ) {
            (Some(fault), _) => Some(fault),
            (None, Some(fault)) => Some(fault),
            (None, None) => refused_fault(plan, state, partitions[at].id),
        }) is Some,
    ensures
        starts_fault(plan, state, ends, bounds, partitions) == (match (
            beyond_end_fault(plan, state, ends, partitions[at].id),
            outside_fault(plan, state, bounds, partitions[at].id),
        ) {
            (Some(fault), _) => Some(fault),
            (None, Some(fault)) => Some(fault),
            (None, None) => refused_fault(plan, state, partitions[at].id),
        }),
{
    assert(partitions.take(at + 1).drop_last() =~= partitions.take(at));
    assert(partitions.take(at + 1).last() == partitions[at]);
    lemma_starts_fault_stays(plan, state, ends, bounds, partitions, at + 1);
}

/// Of the transfers that cannot be assigned, the first is told.
pub proof fn law_first_unassignable_transfer_is_told(
    metadata: Metadata,
    plans: Seq<TransferPlan>,
    state: OffsetState,
    ends: Map<Seq<char>, i64>,
    bounds: Map<Seq<char>, Watermarks>,
    at: int,
)
    requires
        0 <= at < plans.len(),
        assignment_fault(metadata, plans.take(at), state, ends, bounds) is None,
        (match metadata::topic_of(metadata, plans[at].source.topic@) {
            None => Some(
                failure::failed("missing metadata for source topic "@ + plans[at].source.topic@),
            ),
            Some(topic) => starts_fault(plans[at], state, ends, bounds, topic.partitions@),
        }) is Some,
    ensures
        assignment_fault(metadata, plans, state, ends, bounds) == (match metadata::topic_of(metadata, plans[at].source.topic@) {
            None => Some(
                failure::failed("missing metadata for source topic "@ + plans[at].source.topic@),
            ),
            Some(topic) => starts_fault(plans[at], state, ends, bounds, topic.partitions@),
        }),
{
    assert(plans.take(at + 1).drop_last() =~= plans.take(at));
    assert(plans.take(at + 1).last() == plans[at]);
    lemma_assignment_fault_stays(metadata, plans, state, ends, bounds, at + 1);
}

/// Of the source topics whose partitions cannot be counted, the first is told.
pub proof fn law_first_uncounted_topic_is_told(
    metadata: Metadata,
    source: Seq<char>,
    plans: Seq<TransferPlan>,
    at: int,
)
    requires
        0 <= at < plans.len(),
        counts_fault(metadata, source, plans.take(at)) is None,
        count_fault(metadata, source, plans[at].source.topic@) is Some,
    ensures
        counts_fault(metadata, source, plans) == count_fault(metadata, source, plans[at].source.topic@),
{
    assert(plans.take(at + 1).drop_last() =~= plans.take(at));
    assert(plans.take(at + 1).last() == plans[at]);
    lemma_counts_fault_stays(metadata, source, plans, at + 1);
}

} // verus!
