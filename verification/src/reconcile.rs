//! Reconciliation: how destination topics are brought to what the configuration
//! asks for.

use crate::archive::ArchiveSummary;
use crate::assignment;
use crate::failure;
use crate::failure::{fail, Failure, FailureView};
use crate::metadata;
use crate::metadata::{Metadata, MetadataPartition, MetadataTopic};
use crate::registry;
use crate::registry::{ClusterState, FenceView};
use crate::state;
use crate::state::OffsetState;
use crate::text;
use crate::text_map::TextMap;
use crate::topics;
use crate::topics::{ManagedTopic, StaticTopicKind, TopicView, TransferKind};
use crate::transfers;
use crate::transfers::Watermarks;
use vstd::prelude::*;

verus! {

/// What is done with a destination topic: it is kept as it is, created, or
/// deleted and created again for a reason.
#[derive(Debug)]
pub enum ReconcileAction {
    Keep,
    Create,
    Recreate(String),
}

/// What is done with a destination topic.
#[verifier::ext_equal]
pub enum ActionView {
    Keep,
    Create,
    Recreate(Seq<char>),
}

impl View for ReconcileAction {
    type V = ActionView;

    open spec fn view(&self) -> ActionView {
        match *self {
            ReconcileAction::Keep => ActionView::Keep,
            ReconcileAction::Create => ActionView::Create,
            ReconcileAction::Recreate(reason) => ActionView::Recreate(reason@),
        }
    }
}

/// The text of an optional string.
pub open spec fn option_text(value: Option<String>) -> Option<Seq<char>> {
    match value {
        Some(value) => Some(value@),
        None => None,
    }
}

/// A missing topic is created, a drifted one recreated, any other kept.
pub open spec fn action_of(existing: bool, drift_reason: Option<Seq<char>>) -> ActionView {
    if !existing {
        ActionView::Create
    } else {
        match drift_reason {
            Some(reason) => ActionView::Recreate(reason),
            None => ActionView::Keep,
        }
    }
}

/// Decides what is done with a destination topic: a missing topic is created, a
/// drifted one recreated, any other kept.
pub fn plan_reconcile_action(existing: bool, drift_reason: Option<String>) -> (r: ReconcileAction)
    ensures
        r@ == action_of(existing, option_text(drift_reason)),
{
    if !existing {
        return ReconcileAction::Create;
    }
    match drift_reason {
        Some(reason) => ReconcileAction::Recreate(reason),
        None => ReconcileAction::Keep,
    }
}

/// Recreation is authorized for the whole command or for the topic.
pub fn recreation_authorized(command_force: bool, topic_force: bool) -> (r: bool)
    ensures
        r == (command_force || topic_force),
{
    command_force || topic_force
}

/// The first partition whose replicas are not as many as expected.
pub open spec fn misreplicated(partitions: Seq<MetadataPartition>, expected: i32) -> Option<
    MetadataPartition,
>
    decreases partitions.len(),
{
    if partitions.len() == 0 {
        None
    } else if partitions[0].replicas as i32 != expected {
        Some(partitions[0])
    } else {
        misreplicated(partitions.drop_first(), expected)
    }
}

/// How a live topic's partitions differ from what is asked for.
pub open spec fn shape_mismatch(
    topic: TopicView,
    desired_partitions: i32,
    live: MetadataTopic,
) -> Option<Seq<char>> {
    let live_count = live.partitions@.len() as i32;
    if live_count != desired_partitions {
        Some(
            "partition count is "@ + text::decimal(live_count as int) + " but expected "@
                + text::decimal(desired_partitions as int),
        )
    } else {
        match topic.replication_factor {
            Some(expected) => match misreplicated(live.partitions@, expected) {
                Some(partition) => Some(
                    "partition "@ + text::decimal(partition.id as int)
                        + " has replication factor "@ + text::decimal(partition.replicas as int)
                        + " but expected "@ + text::decimal(expected as int),
                ),
                None => None,
            },
            None => None,
        }
    }
}

fn find_misreplicated(partitions: &Vec<MetadataPartition>, expected: i32) -> (r: Option<
    MetadataPartition,
>)
    ensures
        r == misreplicated(partitions@, expected),
{
    let mut i: usize = 0;
    assert(partitions@.skip(0) == partitions@);
    while i < partitions.len()
        invariant
            i <= partitions@.len(),
            misreplicated(partitions@, expected) == misreplicated(
                partitions@.skip(i as int),
                expected,
            ),
        decreases partitions@.len() - i,
    {
        let partition = partitions[i];
        if partition.replicas as i32 != expected {
            return Some(partition);
        }
        assert(partitions@.skip(i as int).drop_first() == partitions@.skip(i + 1));
        i = i + 1;
    }
    None
}

/// Compares a live topic's partitions with what is asked for.
pub fn topic_shape_mismatch(
    topic: &ManagedTopic,
    desired_partitions: i32,
    live_topic: &MetadataTopic,
) -> (r: Option<String>)
    ensures
        option_text(r) == shape_mismatch(topic@, desired_partitions, *live_topic),
{
    let live_count = live_topic.partition_count();
    if live_count != desired_partitions {
        let mut reason = text::join3(
            "partition count is ",
            text::decimal_i64(live_count as i64).as_str(),
            " but expected ",
        );
        reason.append(text::decimal_i64(desired_partitions as i64).as_str());
        return Some(reason);
    }
    if let Some(expected) = topic.replication_factor {
        if let Some(partition) = find_misreplicated(&live_topic.partitions, expected) {
            let mut reason = text::join5(
                "partition ",
                text::decimal_i64(partition.id as i64).as_str(),
                " has replication factor ",
                text::decimal_u64(partition.replicas as u64).as_str(),
                " but expected ",
            );
            reason.append(text::decimal_i64(expected as i64).as_str());
            return Some(reason);
        }
    }
    None
}

/// The live value of a setting, where it has one.
pub open spec fn live_value(entries: Map<Seq<char>, Option<String>>, key: Seq<char>) -> Option<
    Seq<char>,
> {
    if entries.contains_key(key) {
        option_text(entries[key])
    } else {
        None
    }
}

/// The first setting, in the order of their names, that differs from what is
/// asked for.
pub open spec fn settings_mismatch(
    entries: Map<Seq<char>, Option<String>>,
    keys: Seq<Seq<char>>,
    wanted: Map<Seq<char>, String>,
) -> Option<Seq<char>>
    decreases keys.len(),
{
    if keys.len() == 0 {
        None
    } else {
        failure::first(
            settings_mismatch(entries, keys.drop_last(), wanted),
            if live_value(entries, keys.last()) != Some(wanted[keys.last()]@) {
                Some(
                    "config "@ + keys.last() + " is "@ + text::option_debug_form(
                        live_value(entries, keys.last()),
                    ) + " but expected "@ + text::debug_form(wanted[keys.last()]@),
                )
            } else {
                None
            },
        )
    }
}

/// How a live topic's settings differ from what is asked for.
pub open spec fn config_mismatch(
    topic: TopicView,
    entries: Map<Seq<char>, Option<String>>,
) -> Option<Seq<char>> {
    let timestamp_type = live_value(entries, "message.timestamp.type"@);
    if timestamp_type != Some("CreateTime"@) {
        Some(
            "config message.timestamp.type is "@ + text::option_debug_form(timestamp_type)
                + " but expected \"CreateTime\""@,
        )
    } else {
        settings_mismatch(entries, topic.config_keys, topic.config)
    }
}

fn find_live_value<'a>(entries: &'a TextMap<Option<String>>, key: &str) -> (r: Option<&'a str>)
    ensures
        live_value(entries@, key@) == (match r {
            Some(value) => Some(value@),
            None => None,
        }),
{
    match entries.get(key) {
        Some(value) => match value {
            Some(value) => Some(value.as_str()),
            None => None,
        },
        None => None,
    }
}

fn holds_text(value: Option<&str>, expected: &str) -> (r: bool)
    ensures
        r == (value is Some && value->0@ == expected@),
{
    match value {
        Some(value) => text::same(value, expected),
        None => false,
    }
}

proof fn lemma_settings_mismatch_stays(
    entries: Map<Seq<char>, Option<String>>,
    keys: Seq<Seq<char>>,
    wanted: Map<Seq<char>, String>,
    count: int,
)
    requires
        0 <= count <= keys.len(),
        settings_mismatch(entries, keys.take(count), wanted) is Some,
    ensures
        settings_mismatch(entries, keys, wanted) == settings_mismatch(
            entries,
            keys.take(count),
            wanted,
        ),
    decreases keys.len(),
{
    if count < keys.len() {
        assert(keys.drop_last().take(count) == keys.take(count));
        lemma_settings_mismatch_stays(entries, keys.drop_last(), wanted, count);
    } else {
        assert(keys.take(count) == keys);
    }
}

/// Compares a live topic's settings with what is asked for. A setting without a
/// live value differs from every value.
pub fn topic_config_mismatch(topic: &ManagedTopic, entries: &TextMap<Option<String>>) -> (r: Option<
    String,
>)
    ensures
        option_text(r) == config_mismatch(topic@, entries@),
{
    let timestamp_type = find_live_value(entries, "message.timestamp.type");
    if !holds_text(timestamp_type, "CreateTime") {
        return Some(
            text::join3(
                "config message.timestamp.type is ",
                text::quoted_option(timestamp_type).as_str(),
                " but expected \"CreateTime\"",
            ),
        );
    }
    let ghost keys = topic.config.keys();
    let mut i: usize = 0;
    assert(keys.take(0) == Seq::<Seq<char>>::empty());
    while i < topic.config.len()
        invariant
            i <= keys.len(),
            keys == topic.config.keys(),
            live_value(entries@, "message.timestamp.type"@) == Some("CreateTime"@),
            settings_mismatch(entries@, keys.take(i as int), topic.config@) is None,
        decreases keys.len() - i,
    {
        proof {
            assert(keys.take(i + 1).drop_last() == keys.take(i as int));
            if settings_mismatch(entries@, keys.take(i + 1), topic.config@) is Some {
                lemma_settings_mismatch_stays(entries@, keys, topic.config@, i + 1);
            }
        }
        let key = topic.config.key_at(i);
        let expected = topic.config.value_at(i).as_str();
        let actual = find_live_value(entries, key);
        if !holds_text(actual, expected) {
            let mut reason = text::join5(
                "config ",
                key,
                " is ",
                text::quoted_option(actual).as_str(),
                " but expected ",
            );
            reason.append(text::quoted(expected).as_str());
            return Some(reason);
        }
        i = i + 1;
    }
    assert(keys.take(i as int) == keys);
    None
}

/// How a live topic differs from what is asked for: in its partitions, or else
/// in its settings.
pub open spec fn mismatch_of(
    topic: TopicView,
    desired_partitions: i32,
    live: MetadataTopic,
    entries: Map<Seq<char>, Option<String>>,
) -> Option<Seq<char>> {
    failure::first(
        shape_mismatch(topic, desired_partitions, live),
        config_mismatch(topic, entries),
    )
}

/// Compares a live topic with what is asked for: its partitions, then its
/// settings.
pub fn topic_mismatch_reason(
    topic: &ManagedTopic,
    desired_partitions: i32,
    live_topic: &MetadataTopic,
    entries: &TextMap<Option<String>>,
) -> (r: Option<String>)
    ensures
        option_text(r) == mismatch_of(topic@, desired_partitions, *live_topic, entries@),
{
    match topic_shape_mismatch(topic, desired_partitions, live_topic) {
        Some(reason) => Some(reason),
        None => topic_config_mismatch(topic, entries),
    }
}

/// What came back when a topic's settings were asked for: the settings, an
/// error code in its printed form, or nothing.
#[derive(Debug)]
pub enum Described {
    Entries(TextMap<Option<String>>),
    Refused(String),
    Nothing,
}

/// Why a topic's settings are not known.
pub open spec fn described_fault(described: Described, topic: Seq<char>) -> Option<FailureView> {
    let message = "failed to compare configuration for destination topic "@ + topic;
    match described {
        Described::Entries(_) => None,
        Described::Refused(code) => Some(
            FailureView {
                message,
                cause: Some(
                    "describe_configs returned error for topic "@ + topic + ": "@ + code@,
                ),
            },
        ),
        Described::Nothing => Some(
            FailureView {
                message,
                cause: Some("missing describe_configs result for topic "@ + topic),
            },
        ),
    }
}

/// The settings of a topic that came back.
pub fn described_entries(described: Described, topic: &str) -> (r: Result<
    TextMap<Option<String>>,
    Failure,
>)
    ensures
        failure::tells(r, described_fault(described, topic@)),
        r matches Ok(entries) ==> described == Described::Entries(entries),
{
    match described {
        Described::Entries(entries) => Ok(entries),
        Described::Refused(code) => {
            let mut cause = text::join3(
                "describe_configs returned error for topic ",
                topic,
                ": ",
            );
            cause.append(code.as_str());
            Err(
                Failure {
                    message: text::join2(
                        "failed to compare configuration for destination topic ",
                        topic,
                    ),
                    cause: Some(cause),
                },
            )
        },
        Described::Nothing => Err(
            Failure {
                message: text::join2(
                    "failed to compare configuration for destination topic ",
                    topic,
                ),
                cause: Some(text::join2("missing describe_configs result for topic ", topic)),
            },
        ),
    }
}

/// What is known of a destination topic before its settings are compared: how
/// many partitions it is to have, whether it exists, how it differs already,
/// and whether its settings are still to be compared.
#[derive(Debug)]
pub struct Inspection {
    pub desired_partitions: i32,
    pub existing: bool,
    pub mismatch: Option<String>,
    pub compare_settings: bool,
}

/// An archive must have as many partitions as its topic.
pub open spec fn archive_fault(
    topic: TopicView,
    desired_partitions: i32,
    archive_partitions: Option<usize>,
) -> Option<FailureView> {
    if topic.restore is Some && archive_partitions is Some {
        if archive_partitions->0 > i32::MAX {
            Some(failure::failed("archive partition count does not fit Kafka"@))
        } else if archive_partitions->0 != desired_partitions {
            Some(
                failure::failed(
                    "restore archive "@ + topic.restore->0 + " has "@ + text::decimal(
                        archive_partitions->0 as int,
                    ) + " partitions but destination topic "@ + topic.name + " configures "@
                        + text::decimal(desired_partitions as int),
                ),
            )
        } else {
            None
        }
    } else {
        None
    }
}

/// The first thing that keeps a destination topic from being inspected.
pub open spec fn inspection_fault(
    topic: TopicView,
    destination: Metadata,
    counts: Map<Seq<char>, i32>,
    archive_partitions: Option<usize>,
) -> Option<FailureView> {
    let existing = metadata::topic_of(destination, topic.name);
    failure::first(
        assignment::desired_fault(topic, counts, archive_partitions),
        failure::first(
            archive_fault(
                topic,
                assignment::desired_of(topic, counts, archive_partitions),
                archive_partitions,
            ),
            if existing is Some && existing->0.error is Some {
                Some(
                    failure::failed(
                        "destination topic "@ + topic.name + " metadata error: "@
                            + existing->0.error->0@,
                    ),
                )
            } else {
                None
            },
        ),
    )
}

/// A topic that is to be empty at every start.
pub open spec fn is_empty_topic(topic: TopicView) -> bool {
    topic.static_topic is Some && topic.static_topic->0.kind == StaticTopicKind::Empty
}

/// How a destination topic differs already before its settings are compared.
pub open spec fn early_mismatch(
    topic: TopicView,
    desired_partitions: i32,
    existing: Option<MetadataTopic>,
) -> Option<Seq<char>> {
    match existing {
        Some(live) => if is_empty_topic(topic) {
            Some("configured empty topic must be recreated"@)
        } else {
            shape_mismatch(topic, desired_partitions, live)
        },
        None => None,
    }
}

fn check_archive(
    topic: &ManagedTopic,
    desired_partitions: i32,
    archive_partitions: Option<usize>,
) -> (r: Result<(), Failure>)
    ensures
        failure::tells(r, archive_fault(topic@, desired_partitions, archive_partitions)),
{
    if let Some(restore) = &topic.restore {
        if let Some(count) = archive_partitions {
            if count > 0x7fff_ffff {
                return Err(fail("archive partition count does not fit Kafka".to_owned()));
            }
            if count as i32 != desired_partitions {
                let mut message = text::join7(
                    "restore archive ",
                    restore.archive.as_str(),
                    " has ",
                    text::decimal_u64(count as u64).as_str(),
                    " partitions but destination topic ",
                    topic.name.as_str(),
                    " configures ",
                );
                message.append(text::decimal_i64(desired_partitions as i64).as_str());
                return Err(fail(message));
            }
        }
    }
    Ok(())
}

/// Inspects a destination topic: how many partitions it is to have, whether it
/// exists, and how it differs from what is asked for as far as its settings do
/// not have to be compared.
pub fn inspect_topic(
    topic: &ManagedTopic,
    destination: &Metadata,
    source_partition_counts: &TextMap<i32>,
    archive: Option<&ArchiveSummary>,
) -> (r: Result<Inspection, Failure>)
    ensures
        ({
            let archive_partitions = match archive {
                Some(archive) => Some(archive.partitions),
                None => None,
            };
            let desired = assignment::desired_of(
                topic@,
                source_partition_counts@,
                archive_partitions,
            );
            let existing = metadata::topic_of(*destination, topic.name@);
            &&& failure::tells(
                r,
                inspection_fault(
                    topic@,
                    *destination,
                    source_partition_counts@,
                    archive_partitions,
                ),
            )
            &&& r matches Ok(inspection) ==> {
                &&& inspection.desired_partitions == desired
                &&& inspection.existing == existing is Some
                &&& option_text(inspection.mismatch) == early_mismatch(topic@, desired, existing)
                &&& inspection.compare_settings == (existing is Some && early_mismatch(
                    topic@,
                    desired,
                    existing,
                ) is None)
            }
        }),
{
    let archive_partitions = match archive {
        Some(archive) => Some(archive.partitions),
        None => None,
    };
    let desired_partitions = match assignment::desired_partition_count(
        topic,
        source_partition_counts,
        archive_partitions,
    ) {
        Ok(count) => count,
        Err(failure) => {
            return Err(failure);
        },
    };
    if let Err(failure) = check_archive(topic, desired_partitions, archive_partitions) {
        return Err(failure);
    }
    let live = match destination.find(topic.name.as_str()) {
        Some(live) => live,
        None => {
            return Ok(
                Inspection {
                    desired_partitions,
                    existing: false,
                    mismatch: None,
                    compare_settings: false,
                },
            );
        },
    };
    if let Some(error) = &live.error {
        let mut message = text::join3(
            "destination topic ",
            topic.name.as_str(),
            " metadata error: ",
        );
        message.append(error.as_str());
        return Err(fail(message));
    }
    let empty = match topic.static_topic {
        Some(static_topic) => static_topic.kind == StaticTopicKind::Empty,
        None => false,
    };
    let mismatch = if empty {
        Some("configured empty topic must be recreated".to_owned())
    } else {
        topic_shape_mismatch(topic, desired_partitions, live)
    };
    let compare_settings = mismatch.is_none();
    Ok(Inspection { desired_partitions, existing: true, mismatch, compare_settings })
}

/// A saved offset lies outside its source partition's watermarks.
pub open spec fn strays(
    state: OffsetState,
    topic: TopicView,
    bounds: Map<Seq<char>, Watermarks>,
    partition: i32,
) -> bool {
    let source = topic.transfer->0.source;
    let key = transfers::boundary_key(source.instance, source.topic, partition);
    match state.offset_of(topic.name, partition) {
        Some(offset) => bounds.contains_key(key) && !(bounds[key].low <= offset
            <= bounds[key].high),
        None => false,
    }
}

/// The first of some partitions whose saved offset lies outside its source
/// partition's watermarks.
pub open spec fn stray_partition(
    state: OffsetState,
    topic: TopicView,
    bounds: Map<Seq<char>, Watermarks>,
    count: int,
) -> Option<i32>
    decreases count,
{
    if count <= 0 {
        None
    } else {
        failure::first(
            stray_partition(state, topic, bounds, count - 1),
            if strays(state, topic, bounds, (count - 1) as i32) {
                Some((count - 1) as i32)
            } else {
                None
            },
        )
    }
}

/// How an existing clone differs from what is saved of it: nothing is saved, it
/// is saved as the clone of another source, or a saved offset is no longer
/// between the watermarks of its source partition.
pub open spec fn clone_drift(
    state: OffsetState,
    topic: TopicView,
    bounds: Map<Seq<char>, Watermarks>,
    partitions: i32,
) -> Option<Seq<char>> {
    match state::clone_source(topic) {
        None => None,
        Some(source) => match state.clone_of(topic.name) {
            None => Some("no progress is saved for clone source "@ + topics::reference_text(source)),
            Some(clone) => if clone.source != topics::reference_text(source) {
                Some(
                    "saved clone source is "@ + clone.source + " but config uses "@
                        + topics::reference_text(source),
                )
            } else {
                match stray_partition(state, topic, bounds, partitions as int) {
                    Some(partition) => {
                        let key = transfers::boundary_key(
                            source.instance,
                            source.topic,
                            partition,
                        );
                        Some(
                            "saved offset "@ + text::decimal(
                                state.offset_of(topic.name, partition)->0 as int,
                            ) + " of partition "@ + text::decimal(partition as int)
                                + " is outside source watermarks "@ + text::decimal(
                                bounds[key].low as int,
                            ) + " to "@ + text::decimal(bounds[key].high as int),
                        )
                    },
                    None => None,
                }
            },
        },
    }
}

/// Why an existing topic is drifted: it differs from what is asked for, its
/// archive has not been restored into it, its clone differs from what is saved,
/// or it is not the topic that is recorded.
pub open spec fn drift_of(
    state: OffsetState,
    topic: TopicView,
    mismatch: Option<Seq<char>>,
    fingerprint: Option<Seq<char>>,
    bounds: Map<Seq<char>, Watermarks>,
    partitions: i32,
    identity_drift: Option<Seq<char>>,
) -> Option<Seq<char>> {
    failure::first(
        mismatch,
        failure::first(
            if topic.restore is Some && fingerprint is Some && !restored(
                state,
                topic.name,
                fingerprint->0,
            ) {
                Some("configured archive has not completed successfully"@)
            } else {
                None
            },
            failure::first(clone_drift(state, topic, bounds, partitions), identity_drift),
        ),
    )
}

/// A topic has been filled from the archive with the fingerprint.
pub open spec fn restored(state: OffsetState, topic: Seq<char>, fingerprint: Seq<char>) -> bool {
    state.marker_of(topic) == Some(
        state::MarkerView {
            archive_sha256: fingerprint,
            archive_format_version: crate::layout::VERSION,
        },
    )
}

proof fn lemma_first_stray(
    state: OffsetState,
    topic: TopicView,
    bounds: Map<Seq<char>, Watermarks>,
    at: int,
    count: int,
)
    requires
        0 <= at < count <= i32::MAX,
        stray_partition(state, topic, bounds, at) is None,
        strays(state, topic, bounds, at as i32),
    ensures
        stray_partition(state, topic, bounds, count) == Some(at as i32),
    decreases count,
{
    if at < count - 1 {
        lemma_first_stray(state, topic, bounds, at, count - 1);
    }
}

fn saved_clone_drift(
    state: &OffsetState,
    topic: &ManagedTopic,
    bounds: &TextMap<Watermarks>,
    partitions: i32,
) -> (r: Option<String>)
    ensures
        option_text(r) == clone_drift(*state, topic@, bounds@, partitions),
{
    let transfer = match &topic.transfer {
        Some(transfer) => transfer,
        None => {
            return None;
        },
    };
    if transfer.kind != TransferKind::Clone {
        return None;
    }
    let configured = transfer.source.display();
    match state.clones.get(topic.name.as_str()) {
        None => {
            return Some(
                text::join2("no progress is saved for clone source ", configured.as_str()),
            );
        },
        Some(clone) => {
            if !text::same(clone.source.as_str(), configured.as_str()) {
                let mut reason = text::join3(
                    "saved clone source is ",
                    clone.source.as_str(),
                    " but config uses ",
                );
                reason.append(configured.as_str());
                return Some(reason);
            }
        },
    }
    let mut partition: i32 = 0;
    while partition < partitions
        invariant
            0 <= partition,
            partitions > 0 ==> partition <= partitions,
            topic.transfer == Some(*transfer),
            transfer.kind == TransferKind::Clone,
            state.clone_of(topic.name@) is Some,
            state.clone_of(topic.name@)->0.source == topics::reference_text(transfer.source@),
            stray_partition(*state, topic@, bounds@, partition as int) is None,
        decreases partitions - partition,
    {
        let key = transfers::clone_boundary_key(
            transfer.source.instance.as_str(),
            transfer.source.topic.as_str(),
            partition,
        );
        if let Some(offset) = state.next_offset(topic.name.as_str(), partition) {
            if let Some(marks) = bounds.get(key.as_str()) {
                if offset < marks.low || offset > marks.high {
                    proof {
                        lemma_first_stray(
                            *state,
                            topic@,
                            bounds@,
                            partition as int,
                            partitions as int,
                        );
                    }
                    let mut reason = text::join5(
                        "saved offset ",
                        text::decimal_i64(offset).as_str(),
                        " of partition ",
                        text::decimal_i64(partition as i64).as_str(),
                        " is outside source watermarks ",
                    );
                    reason.append(text::decimal_i64(marks.low).as_str());
                    reason.append(" to ");
                    reason.append(text::decimal_i64(marks.high).as_str());
                    return Some(reason);
                }
            }
        }
        partition = partition + 1;
    }
    None
}

/// Works out why an existing topic is drifted, if it is: it differs from what is
/// asked for, its archive has not been restored into it, its clone differs from
/// what is saved, or it is not the topic that is recorded.
pub fn drift_reason(
    state: &OffsetState,
    topic: &ManagedTopic,
    mismatch: Option<String>,
    fingerprint: Option<&str>,
    bounds: &TextMap<Watermarks>,
    partitions: i32,
    identity_drift: Option<String>,
) -> (r: Option<String>)
    ensures
        option_text(r) == drift_of(
            *state,
            topic@,
            option_text(mismatch),
            match fingerprint {
                Some(fingerprint) => Some(fingerprint@),
                None => None,
            },
            bounds@,
            partitions,
            option_text(identity_drift),
        ),
{
    if mismatch.is_some() {
        return mismatch;
    }
    if topic.restore.is_some() {
        if let Some(fingerprint) = fingerprint {
            if !state.restore_matches(topic.name.as_str(), fingerprint) {
                return Some("configured archive has not completed successfully".to_owned());
            }
        }
    }
    match saved_clone_drift(state, topic, bounds, partitions) {
        Some(reason) => Some(reason),
        None => identity_drift,
    }
}

/// What is done with one of the configured topics.
#[derive(Debug)]
pub struct ReconcilePlan {
    pub topic_index: usize,
    pub desired_partitions: i32,
    pub restore_fingerprint: Option<String>,
    pub action: ReconcileAction,
    pub authorized: bool,
}

/// What is done with one of the configured topics.
#[verifier::ext_equal]
pub struct PlanView {
    pub topic_index: usize,
    pub desired_partitions: i32,
    pub restore_fingerprint: Option<Seq<char>>,
    pub action: ActionView,
    pub authorized: bool,
}

impl View for ReconcilePlan {
    type V = PlanView;

    open spec fn view(&self) -> PlanView {
        PlanView {
            topic_index: self.topic_index,
            desired_partitions: self.desired_partitions,
            restore_fingerprint: option_text(self.restore_fingerprint),
            action: self.action@,
            authorized: self.authorized,
        }
    }
}

/// Some plans.
pub open spec fn reconcile_views(plans: Seq<ReconcilePlan>) -> Seq<PlanView> {
    plans.map_values(|plan: ReconcilePlan| plan@)
}

/// The texts of some strings.
pub open spec fn string_texts(strings: Seq<String>) -> Seq<Seq<char>> {
    strings.map_values(|string: String| string@)
}

/// What is said of a recreation that is not authorized.
pub open spec fn required_text(topic: Seq<char>, action: ActionView) -> Option<Seq<char>> {
    match action {
        ActionView::Recreate(reason) => Some(topic + ": "@ + reason),
        _ => None,
    }
}

/// The plans for all topics, and the recreations among them that are not
/// authorized. Nothing is done with any topic before all of them are planned.
#[derive(Debug)]
pub struct Reconciliation {
    plans: Vec<ReconcilePlan>,
    force_required: Vec<String>,
}

/// A plan that recreates a topic without being authorized to.
pub open spec fn oversteps(plan: PlanView) -> bool {
    plan.action is Recreate && !plan.authorized
}

/// Texts one after the other, with something between them.
pub open spec fn joined(parts: Seq<Seq<char>>, between: Seq<char>) -> Seq<char>
    decreases parts.len(),
{
    if parts.len() == 0 {
        Seq::empty()
    } else if parts.len() == 1 {
        parts[0]
    } else {
        joined(parts.drop_last(), between) + between + parts.last()
    }
}

fn join_texts(parts: &Vec<String>, between: &str) -> (r: String)
    ensures
        r@ == joined(string_texts(parts@), between@),
{
    let ghost views = string_texts(parts@);
    let mut joined_text = String::new();
    let mut i: usize = 0;
    assert(joined_text@ == joined(views.take(0), between@));
    while i < parts.len()
        invariant
            i <= parts@.len(),
            views == string_texts(parts@),
            joined_text@ == joined(views.take(i as int), between@),
        decreases parts@.len() - i,
    {
        let ghost more = views.take(i + 1);
        assert(more.drop_last() == views.take(i as int));
        assert(more.last() == parts@[i as int]@);
        if i == 0 {
            joined_text = parts[i].clone();
        } else {
            joined_text.append(between);
            joined_text.append(parts[i].as_str());
        }
        assert(joined_text@ == joined(more, between@));
        i = i + 1;
    }
    assert(views.take(i as int) == views);
    joined_text
}

impl Reconciliation {
    #[verifier::type_invariant]
    spec fn complete(self) -> bool {
        forall|i: int|
            0 <= i < self.plans@.len() && oversteps((#[trigger] self.plans@[i])@)
                ==> self.force_required@.len() > 0
    }

    /// The plans.
    pub closed spec fn plans(&self) -> Seq<PlanView> {
        reconcile_views(self.plans@)
    }

    /// What is said of the recreations that are not authorized.
    pub closed spec fn required(&self) -> Seq<Seq<char>> {
        string_texts(self.force_required@)
    }

    /// A reconciliation without plans.
    pub fn new() -> (r: Reconciliation)
        ensures
            r.plans() == Seq::<PlanView>::empty(),
            r.required() == Seq::<Seq<char>>::empty(),
    {
        let r = Reconciliation { plans: Vec::new(), force_required: Vec::new() };
        assert(r.plans() == Seq::<PlanView>::empty());
        assert(r.required() == Seq::<Seq<char>>::empty());
        r
    }

    /// Plans what is done with a topic.
    pub fn add_topic(
        &mut self,
        topic_index: usize,
        topic: &ManagedTopic,
        existing: bool,
        desired_partitions: i32,
        restore_fingerprint: Option<String>,
        drift_reason: Option<String>,
        force: bool,
    )
        ensures
            ({
                let plan = PlanView {
                    topic_index,
                    desired_partitions,
                    restore_fingerprint: option_text(restore_fingerprint),
                    action: action_of(existing, option_text(drift_reason)),
                    authorized: force || topic.force,
                };
                &&& final(self).plans() == old(self).plans().push(plan)
                &&& final(self).required() == if oversteps(plan) {
                    old(self).required().push(required_text(topic.name@, plan.action)->0)
                } else {
                    old(self).required()
                }
            }),
    {
        proof {
            use_type_invariant(&*self);
        }
        let action = plan_reconcile_action(existing, drift_reason);
        let authorized = recreation_authorized(force, topic.force);
        let mut plans: Vec<ReconcilePlan> = Vec::new();
        std::mem::swap(&mut plans, &mut self.plans);
        let mut force_required: Vec<String> = Vec::new();
        std::mem::swap(&mut force_required, &mut self.force_required);
        let ghost old_plans = plans@;
        let ghost old_required = force_required@;
        if let ReconcileAction::Recreate(reason) = &action {
            if !authorized {
                let line = text::join3(topic.name.as_str(), ": ", reason.as_str());
                let ghost text = line@;
                force_required.push(line);
                assert(string_texts(force_required@) == string_texts(old_required).push(text));
            }
        }
        let plan = ReconcilePlan {
            topic_index,
            desired_partitions,
            restore_fingerprint,
            action,
            authorized,
        };
        let ghost view = plan@;
        plans.push(plan);
        proof {
            assert(reconcile_views(plans@) == reconcile_views(old_plans).push(view));
            assert forall|i: int|
                0 <= i < plans@.len() && oversteps((#[trigger] plans@[i])@) implies force_required@.len()
                > 0 by {
                if i < old_plans.len() {
                    assert(plans@[i] == old_plans[i]);
                }
            }
        }
        *self = Reconciliation { plans, force_required };
    }

    /// Hands out the plans, unless a recreation among them is not authorized.
    pub fn authorize(self) -> (r: Result<Vec<ReconcilePlan>, Failure>)
        ensures
            failure::tells(
                r,
                if self.required().len() > 0 {
                    Some(
                        failure::failed(
                            "destination topic recreation requires --force or topic force: true:\n- "@
                                + joined(self.required(), "\n- "@),
                        ),
                    )
                } else {
                    None
                },
            ),
            r matches Ok(plans) ==> reconcile_views(plans@) == self.plans(),
            r matches Ok(plans) ==> forall|i: int|
                0 <= i < plans@.len() ==> !oversteps((#[trigger] plans@[i])@),
    {
        proof {
            use_type_invariant(&self);
        }
        if self.force_required.len() > 0 {
            let list = join_texts(&self.force_required, "\n- ");
            return Err(
                fail(
                    text::join2(
                        "destination topic recreation requires --force or topic force: true:\n- ",
                        list.as_str(),
                    ),
                ),
            );
        }
        Ok(self.plans)
    }
}

/// A step of carrying out a plan.
#[derive(Debug, Clone, Copy, PartialEq, Eq, Structural)]
pub enum ReconcileStep {
    /// Forget everything saved of the topic.
    ClearState,
    /// Delete the topic, and wait until it is gone.
    DeleteTopic,
    /// Create the topic.
    CreateTopic,
    /// Wait until the topic has its partitions.
    AwaitTopic,
    /// Delete every consumer group's offsets of the topic.
    DeleteGroupOffsets,
    /// Record the identities of the topic and of its source.
    RecordIdentity,
    /// Bind the topic to the source it clones.
    BeginClone,
    /// Restore the archive into the topic.
    RestoreArchive,
    /// Check that the topic is still the one that is recorded.
    CheckIdentity,
    /// Record that the archive has been restored.
    MarkRestored,
}

/// The steps that fill a topic that has just been created.
pub open spec fn filling_steps(topic: TopicView, fingerprint: bool) -> Seq<ReconcileStep> {
    if state::clone_source(topic) is Some {
        seq![ReconcileStep::RecordIdentity, ReconcileStep::BeginClone]
    } else if topic.restore is Some && fingerprint {
        seq![
            ReconcileStep::RecordIdentity,
            ReconcileStep::RestoreArchive,
            ReconcileStep::CheckIdentity,
            ReconcileStep::MarkRestored,
        ]
    } else {
        Seq::empty()
    }
}

/// The steps that carry out a plan. State is cleared before a topic is touched,
/// and a fresh topic starts without any group's offsets.
pub open spec fn steps_of(topic: TopicView, action: ActionView, fingerprint: bool) -> Seq<
    ReconcileStep,
> {
    match action {
        ActionView::Keep => Seq::empty(),
        ActionView::Create => seq![
            ReconcileStep::ClearState,
            ReconcileStep::CreateTopic,
            ReconcileStep::AwaitTopic,
            ReconcileStep::DeleteGroupOffsets,
        ] + filling_steps(topic, fingerprint),
        ActionView::Recreate(_) => seq![
            ReconcileStep::ClearState,
            ReconcileStep::DeleteTopic,
            ReconcileStep::CreateTopic,
            ReconcileStep::AwaitTopic,
            ReconcileStep::DeleteGroupOffsets,
        ] + filling_steps(topic, fingerprint),
    }
}

/// The steps that carry out a plan.
pub fn reconcile_steps(topic: &ManagedTopic, plan: &ReconcilePlan) -> (r: Vec<ReconcileStep>)
    ensures
        r@ == steps_of(topic@, plan.action@, plan.restore_fingerprint is Some),
{
    let mut steps: Vec<ReconcileStep> = Vec::new();
    match &plan.action {
        ReconcileAction::Keep => {
            return steps;
        },
        ReconcileAction::Create => {
            steps.push(ReconcileStep::ClearState);
        },
        ReconcileAction::Recreate(_) => {
            steps.push(ReconcileStep::ClearState);
            steps.push(ReconcileStep::DeleteTopic);
        },
    }
    steps.push(ReconcileStep::CreateTopic);
    steps.push(ReconcileStep::AwaitTopic);
    steps.push(ReconcileStep::DeleteGroupOffsets);
    let clone = match &topic.transfer {
        Some(transfer) => transfer.kind == TransferKind::Clone,
        None => false,
    };
    if clone {
        steps.push(ReconcileStep::RecordIdentity);
        steps.push(ReconcileStep::BeginClone);
    } else if topic.restore.is_some() && plan.restore_fingerprint.is_some() {
        steps.push(ReconcileStep::RecordIdentity);
        steps.push(ReconcileStep::RestoreArchive);
        steps.push(ReconcileStep::CheckIdentity);
        steps.push(ReconcileStep::MarkRestored);
    }
    assert(steps@ =~= steps_of(topic@, plan.action@, plan.restore_fingerprint is Some));
    steps
}

/// Only an authorized recreation deletes a topic: a plan that has been handed
/// out deletes nothing unless it recreates its topic and is authorized to.
pub proof fn law_deletion_is_authorized(topic: TopicView, plan: PlanView)
    requires
        !oversteps(plan),
        steps_of(topic, plan.action, plan.restore_fingerprint is Some).contains(
            ReconcileStep::DeleteTopic,
        ),
    ensures
        plan.action is Recreate,
        plan.authorized,
{
    let steps = steps_of(topic, plan.action, plan.restore_fingerprint is Some);
    let filling = filling_steps(topic, plan.restore_fingerprint is Some);
    let i = choose|i: int| 0 <= i < steps.len() && steps[i] == ReconcileStep::DeleteTopic;
    if plan.action is Create {
        if i >= 4 {
            assert(steps[i] == filling[i - 4]);
        }
    }
}

/// Whatever is saved of a topic is forgotten first whenever the topic is
/// created, and the groups' offsets are deleted before it is filled.
pub proof fn law_fresh_topics_start_clean(topic: TopicView, plan: PlanView)
    requires
        !(plan.action is Keep),
    ensures
        ({
            let steps = steps_of(topic, plan.action, plan.restore_fingerprint is Some);
            let filling = filling_steps(topic, plan.restore_fingerprint is Some);
            let created = steps.len() - filling.len();
            &&& steps[0] == ReconcileStep::ClearState
            &&& steps[created - 3] == ReconcileStep::CreateTopic
            &&& steps[created - 1] == ReconcileStep::DeleteGroupOffsets
            &&& steps.skip(created) == filling
        }),
{
    let steps = steps_of(topic, plan.action, plan.restore_fingerprint is Some);
    let filling = filling_steps(topic, plan.restore_fingerprint is Some);
    assert(steps.skip(steps.len() - filling.len()) =~= filling);
}

/// An archive is marked as restored last of all: the topic's identity is
/// recorded before the first record is copied, and checked after the last one.
pub proof fn law_archives_are_marked_last(topic: TopicView, plan: PlanView)
    requires
        steps_of(topic, plan.action, plan.restore_fingerprint is Some).contains(
            ReconcileStep::MarkRestored,
        ),
    ensures
        ({
            let steps = steps_of(topic, plan.action, plan.restore_fingerprint is Some);
            &&& steps.len() >= 4
            &&& steps[steps.len() - 4] == ReconcileStep::RecordIdentity
            &&& steps[steps.len() - 3] == ReconcileStep::RestoreArchive
            &&& steps[steps.len() - 2] == ReconcileStep::CheckIdentity
            &&& steps[steps.len() - 1] == ReconcileStep::MarkRestored
        }),
{
    let steps = steps_of(topic, plan.action, plan.restore_fingerprint is Some);
    let filling = filling_steps(topic, plan.restore_fingerprint is Some);
    let i = choose|i: int| 0 <= i < steps.len() && steps[i] == ReconcileStep::MarkRestored;
    let created = steps.len() - filling.len();
    assert(i >= created);
    assert(steps[i] == filling[i - created]);
    assert(forall|j: int| 0 <= j < filling.len() ==> steps[created + j] == #[trigger] filling[j]);
    assert(steps[created] == filling[0]);
    assert(steps[created + 1] == filling[1]);
    assert(steps[created + 2] == filling[2]);
    assert(steps[created + 3] == filling[3]);
}

/// A missing topic is created, and needs no authorization for that.
pub proof fn law_missing_topics_are_created(drift: Option<Seq<char>>)
    ensures
        action_of(false, drift) == ActionView::Create,
{
}

/// An existing topic that is to be empty is recreated at every start, even when
/// its shape matches.
pub proof fn law_empty_topics_are_recreated(
    state: OffsetState,
    topic: TopicView,
    desired_partitions: i32,
    live: MetadataTopic,
    fingerprint: Option<Seq<char>>,
    bounds: Map<Seq<char>, Watermarks>,
    identity_drift: Option<Seq<char>>,
)
    requires
        is_empty_topic(topic),
    ensures
        action_of(
            true,
            drift_of(
                state,
                topic,
                early_mismatch(topic, desired_partitions, Some(live)),
                fingerprint,
                bounds,
                desired_partitions,
                identity_drift,
            ),
        ) == ActionView::Recreate("configured empty topic must be recreated"@),
{
}

/// A managed topic that matches is kept, with its records.
pub proof fn law_matching_managed_topics_are_kept(
    state: OffsetState,
    topic: TopicView,
    fingerprint: Option<Seq<char>>,
    bounds: Map<Seq<char>, Watermarks>,
    partitions: i32,
    saved: Option<FenceView>,
    live: FenceView,
)
    requires
        topic.static_topic is Some,
        topic.transfer is None,
        topic.restore is None,
    ensures
        action_of(
            true,
            drift_of(
                state,
                topic,
                None,
                fingerprint,
                bounds,
                partitions,
                registry::identity_drift_of(saved, topic, live),
            ),
        ) == ActionView::Keep,
{
}

/// A restored topic that matches is kept whatever is in it. One whose archive
/// has not been restored, or is another one, is recreated, and so is one that
/// is not the topic that is recorded.
pub proof fn law_restored_topics_are_kept(
    state: OffsetState,
    topic: TopicView,
    fingerprint: Seq<char>,
    bounds: Map<Seq<char>, Watermarks>,
    partitions: i32,
    identity_drift: Option<Seq<char>>,
)
    requires
        topic.restore is Some,
        topic.transfer is None,
    ensures
        action_of(
            true,
            drift_of(state, topic, None, Some(fingerprint), bounds, partitions, identity_drift),
        ) == (if !restored(state, topic.name, fingerprint) {
            ActionView::Recreate("configured archive has not completed successfully"@)
        } else {
            match identity_drift {
                Some(reason) => ActionView::Recreate(reason),
                None => ActionView::Keep,
            }
        }),
{
}

/// A topic counts as restored from the archive that it has been marked with, and
/// from no other.
pub proof fn law_marks_tell_archives_apart(
    state: OffsetState,
    topic: Seq<char>,
    fingerprint: Seq<char>,
    other: Seq<char>,
)
    requires
        restored(state, topic, fingerprint),
    ensures
        restored(state, topic, other) <==> other == fingerprint,
{
}

/// State of another topic is never applied: an existing clone or restored topic
/// is kept only where its record in this cluster was made under the identities
/// that it and its source have now.
pub proof fn law_kept_topics_are_the_recorded_ones(
    cluster: ClusterState,
    topic: TopicView,
    mismatch: Option<Seq<char>>,
    fingerprint: Option<Seq<char>>,
    bounds: Map<Seq<char>, Watermarks>,
    partitions: i32,
    live: FenceView,
)
    requires
        registry::is_fenced(topic),
        action_of(
            true,
            drift_of(
                cluster.ledger,
                topic,
                mismatch,
                fingerprint,
                bounds,
                partitions,
                registry::identity_drift_of(cluster.fence_of(topic.name), topic, live),
            ),
        ) is Keep,
    ensures
        cluster.fence_of(topic.name) == Some(live),
{
    registry::law_recorded_topics_are_recognized(cluster.fence_of(topic.name), topic, live);
}

proof fn lemma_no_stray(
    state: OffsetState,
    topic: TopicView,
    bounds: Map<Seq<char>, Watermarks>,
    count: int,
)
    requires
        count <= i32::MAX,
        forall|partition: i32|
            0 <= partition < count ==> !#[trigger] strays(state, topic, bounds, partition),
    ensures
        stray_partition(state, topic, bounds, count) is None,
    decreases count,
{
    if count > 0 {
        lemma_no_stray(state, topic, bounds, count - 1);
    }
}

/// An existing clone that matches is kept exactly where its progress is saved
/// for the configured source, every saved offset is between the watermarks of
/// its source partition, and it is the topic that is recorded. Otherwise it is
/// recreated, which has to be authorized.
pub proof fn law_clones_fail_closed(
    state: OffsetState,
    topic: TopicView,
    bounds: Map<Seq<char>, Watermarks>,
    partitions: i32,
    identity_drift: Option<Seq<char>>,
)
    requires
        state::clone_source(topic) is Some,
        topic.restore is None,
    ensures
        action_of(
            true,
            drift_of(state, topic, None, None, bounds, partitions, identity_drift),
        ) is Keep <==> {
            &&& identity_drift is None
            &&& state.clone_of(topic.name) is Some
            &&& state.clone_of(topic.name)->0.source == topics::reference_text(
                state::clone_source(topic)->0,
            )
            &&& forall|partition: i32|
                0 <= partition < partitions ==> !#[trigger] strays(
                    state,
                    topic,
                    bounds,
                    partition,
                )
        },
{
    let clean = forall|partition: i32|
        0 <= partition < partitions ==> !#[trigger] strays(state, topic, bounds, partition);
    if clean {
        lemma_no_stray(state, topic, bounds, partitions as int);
    } else {
        let partition = choose|partition: i32|
            0 <= partition < partitions && #[trigger] strays(state, topic, bounds, partition);
        lemma_stray_is_found(state, topic, bounds, partition as int, partitions as int);
    }
}

proof fn lemma_stray_is_found(
    state: OffsetState,
    topic: TopicView,
    bounds: Map<Seq<char>, Watermarks>,
    at: int,
    count: int,
)
    requires
        0 <= at < count <= i32::MAX,
        strays(state, topic, bounds, at as i32),
    ensures
        stray_partition(state, topic, bounds, count) is Some,
    decreases count,
{
    if at < count - 1 {
        lemma_stray_is_found(state, topic, bounds, at, count - 1);
    }
}

proof fn lemma_settings_agree(
    entries: Map<Seq<char>, Option<String>>,
    keys: Seq<Seq<char>>,
    wanted: Map<Seq<char>, String>,
)
    ensures
        settings_mismatch(entries, keys, wanted) is None <==> forall|key: Seq<char>| #[trigger]
            keys.contains(key) ==> entries.contains_key(key) && entries[key] is Some
                && entries[key]->0@ == wanted[key]@,
    decreases keys.len(),
{
    if keys.len() > 0 {
        let front = keys.drop_last();
        let last = keys.last();
        lemma_settings_agree(entries, front, wanted);
        assert forall|key: Seq<char>| #[trigger] keys.contains(key) == (front.contains(key) || key
            == last) by {
            if front.contains(key) {
                let i = choose|i: int| 0 <= i < front.len() && front[i] == key;
                assert(keys[i] == key);
            }
            if keys.contains(key) {
                let i = choose|i: int| 0 <= i < keys.len() && keys[i] == key;
                if i < front.len() {
                    assert(front[i] == key);
                }
            }
            if key == last {
                assert(keys[keys.len() - 1] == key);
            }
        }
        if settings_mismatch(entries, keys, wanted) is None {
            assert forall|key: Seq<char>| #[trigger] keys.contains(key) implies entries.contains_key(
                key,
            ) && entries[key] is Some && entries[key]->0@ == wanted[key]@ by {
                if front.contains(key) {
                }
            }
        } else if settings_mismatch(entries, front, wanted) is None {
            assert(keys.contains(last));
        } else {
            let key = choose|key: Seq<char>| #[trigger]
                front.contains(key) && !(entries.contains_key(key) && entries[key] is Some
                    && entries[key]->0@ == wanted[key]@);
            assert(keys.contains(key));
        }
    }
}

/// A live topic's settings agree with what is asked for exactly where its records
/// keep the time they were made at, and every configured setting has the
/// configured value.
pub proof fn law_settings_agree_exactly(
    topic: ManagedTopic,
    entries: Map<Seq<char>, Option<String>>,
)
    ensures
        config_mismatch(topic@, entries) is None <==> {
            &&& entries.contains_key("message.timestamp.type"@)
            &&& entries["message.timestamp.type"@] is Some
            &&& entries["message.timestamp.type"@]->0@ == "CreateTime"@
            &&& forall|key: Seq<char>| #[trigger]
                topic.config@.contains_key(key) ==> entries.contains_key(key)
                    && entries[key] is Some && entries[key]->0@ == topic.config@[key]@
        },
{
    lemma_settings_agree(entries, topic.config.keys(), topic.config@);
    assert(forall|key: Seq<char>|
        #![trigger topic.config@.contains_key(key)]
        #![trigger topic.config.keys().contains(key)]
        topic.config@.contains_key(key) <==> topic.config.keys().contains(key));
}

/// A setting that differs is told: the reason names the first one, in the order
/// of their names, with its live value and the configured one.
pub proof fn law_differing_settings_are_named(
    topic: ManagedTopic,
    entries: Map<Seq<char>, Option<String>>,
    at: int,
)
    requires
        entries.contains_key("message.timestamp.type"@),
        entries["message.timestamp.type"@] is Some,
        entries["message.timestamp.type"@]->0@ == "CreateTime"@,
        0 <= at < topic.config.keys().len(),
        forall|i: int|
            0 <= i < at ==> entries.contains_key(#[trigger] topic.config.keys()[i])
                && entries[topic.config.keys()[i]] is Some
                && entries[topic.config.keys()[i]]->0@ == topic.config@[topic.config.keys()[i]]@,
        !(entries.contains_key(topic.config.keys()[at]) && entries[topic.config.keys()[at]] is Some
            && entries[topic.config.keys()[at]]->0@ == topic.config@[topic.config.keys()[at]]@),
    ensures
        config_mismatch(topic@, entries) == Some(
            "config "@ + topic.config.keys()[at] + " is "@ + (if entries.contains_key(
                topic.config.keys()[at],
            ) && entries[topic.config.keys()[at]] is Some {
                "Some("@ + text::debug_form(entries[topic.config.keys()[at]]->0@) + ")"@
            } else {
                "None"@
            }) + " but expected "@ + text::debug_form(topic.config@[topic.config.keys()[at]]@),
        ),
{
    let keys = topic.config.keys();
    let front = keys.take(at);
    lemma_settings_agree(entries, front, topic.config@);
    assert forall|key: Seq<char>| #[trigger] front.contains(key) implies entries.contains_key(key)
        && entries[key] is Some && entries[key]->0@ == topic.config@[key]@ by {
        let i = choose|i: int| 0 <= i < front.len() && front[i] == key;
        assert(keys[i] == key);
    }
    assert(keys.take(at + 1).drop_last() =~= front);
    assert(keys.take(at + 1).last() == keys[at]);
    lemma_settings_mismatch_stays(entries, keys, topic.config@, at + 1);
}

proof fn lemma_replicas(partitions: Seq<MetadataPartition>, expected: i32)
    ensures
        misreplicated(partitions, expected) is None <==> forall|i: int|
            0 <= i < partitions.len() ==> (#[trigger] partitions[i]).replicas as i32 == expected,
    decreases partitions.len(),
{
    if partitions.len() > 0 {
        let rest = partitions.drop_first();
        lemma_replicas(rest, expected);
        if misreplicated(partitions, expected) is None {
            assert forall|i: int| 0 <= i < partitions.len() implies (
            #[trigger] partitions[i]).replicas as i32 == expected by {
                if i > 0 {
                    assert(rest[i - 1] == partitions[i]);
                }
            }
        } else if partitions[0].replicas as i32 == expected {
            let i = choose|i: int|
                0 <= i < rest.len() && (#[trigger] rest[i]).replicas as i32 != expected;
            assert(partitions[i + 1] == rest[i]);
        }
    }
}

/// A live topic's shape agrees with what is asked for exactly where it has as many
/// partitions, and each of them as many replicas as are configured, if any number
/// is.
pub proof fn law_shapes_agree_exactly(
    topic: TopicView,
    desired_partitions: i32,
    live: MetadataTopic,
)
    ensures
        shape_mismatch(topic, desired_partitions, live) is None <==> {
            &&& live.partitions@.len() as i32 == desired_partitions
            &&& topic.replication_factor matches Some(expected) ==> forall|i: int|
                0 <= i < live.partitions@.len() ==> (#[trigger] live.partitions@[i]).replicas as i32
                    == expected
        },
{
    if topic.replication_factor is Some {
        lemma_replicas(live.partitions@, topic.replication_factor->0);
    }
}

/// A live topic agrees with what is asked for exactly where both its shape and its
/// settings do, and the shape is told first.
pub proof fn law_topics_agree_in_shape_and_settings(
    topic: TopicView,
    desired_partitions: i32,
    live: MetadataTopic,
    entries: Map<Seq<char>, Option<String>>,
)
    ensures
        mismatch_of(topic, desired_partitions, live, entries) == (match shape_mismatch(
            topic,
            desired_partitions,
            live,
        ) {
            Some(reason) => Some(reason),
            None => config_mismatch(topic, entries),
        }),
{
}

/// Before its settings are compared, a missing topic does not differ, one that is
/// to be empty always does, and any other one where its shape does.
pub proof fn law_topics_differ_early(
    topic: TopicView,
    desired_partitions: i32,
    live: MetadataTopic,
)
    ensures
        early_mismatch(topic, desired_partitions, None) is None,
        (topic.static_topic matches Some(plan) && plan.kind == StaticTopicKind::Empty)
            ==> early_mismatch(topic, desired_partitions, Some(live)) is Some,
        !(topic.static_topic matches Some(plan) && plan.kind == StaticTopicKind::Empty)
            ==> early_mismatch(topic, desired_partitions, Some(live)) == shape_mismatch(
            topic,
            desired_partitions,
            live,
        ),
{
}

/// An archive is refused for a topic exactly where it has another number of
/// partitions.
pub proof fn law_archives_fit_their_topic(
    topic: TopicView,
    desired_partitions: i32,
    archive_partitions: Option<usize>,
)
    requires
        desired_partitions >= 0,
    ensures
        archive_fault(topic, desired_partitions, archive_partitions) is None <==> (
        topic.restore is Some ==> (archive_partitions matches Some(count) ==> count
            == desired_partitions)),
{
}

/// A destination topic is inspected exactly where its number of partitions is
/// known, its archive has as many, and its metadata shows no error.
pub proof fn law_inspections_need_their_inputs(
    topic: TopicView,
    destination: Metadata,
    counts: Map<Seq<char>, i32>,
    archive_partitions: Option<usize>,
)
    ensures
        inspection_fault(topic, destination, counts, archive_partitions) is None <==> {
            &&& assignment::desired_fault(topic, counts, archive_partitions) is None
            &&& archive_fault(
                topic,
                assignment::desired_of(topic, counts, archive_partitions),
                archive_partitions,
            ) is None
            &&& metadata::topic_of(destination, topic.name) matches Some(live)
                ==> live.error is None
        },
{
}

/// Settings are known exactly where they came back.
pub proof fn law_settings_come_back(described: Described, topic: Seq<char>)
    ensures
        described_fault(described, topic) is None <==> described is Entries,
{
}

/// An existing clone agrees with what is saved exactly where something is saved
/// for it, under the configured source, and every saved offset of its partitions
/// is between the watermarks of the source, as far as they are known. Topics that
/// are no clones always agree.
pub proof fn law_clones_agree_with_their_progress(
    state: OffsetState,
    topic: TopicView,
    bounds: Map<Seq<char>, Watermarks>,
    partitions: i32,
)
    ensures
        !(topic.transfer matches Some(transfer) && transfer.kind == TransferKind::Clone)
            ==> clone_drift(state, topic, bounds, partitions) is None,
        topic.transfer matches Some(transfer) ==> (transfer.kind == TransferKind::Clone ==> (
        clone_drift(state, topic, bounds, partitions) is None <==> {
            &&& state.clones@.contains_key(topic.name)
            &&& state.clones@[topic.name].source@ == transfer.source.instance + ":"@
                + transfer.source.topic
            &&& forall|partition: i32|
                0 <= partition < partitions ==> (#[trigger] state.offset_of(
                    topic.name,
                    partition,
                ) matches Some(offset) ==> {
                    let key = transfers::boundary_key(
                        transfer.source.instance,
                        transfer.source.topic,
                        partition,
                    );
                    bounds.contains_key(key) ==> bounds[key].low <= offset <= bounds[key].high
                })
        })),
{
    if topic.transfer is Some && topic.transfer->0.kind == TransferKind::Clone {
        let transfer = topic.transfer->0;
        let inside = forall|partition: i32|
            0 <= partition < partitions ==> (#[trigger] state.offset_of(
                topic.name,
                partition,
            ) matches Some(offset) ==> {
                let key = transfers::boundary_key(
                    transfer.source.instance,
                    transfer.source.topic,
                    partition,
                );
                bounds.contains_key(key) ==> bounds[key].low <= offset <= bounds[key].high
            });
        if inside {
            assert forall|partition: i32| 0 <= partition < partitions implies !#[trigger] strays(
                state,
                topic,
                bounds,
                partition,
            ) by {
                assert(state.offset_of(topic.name, partition) == state.offset_of(
                    topic.name,
                    partition,
                ));
            }
            lemma_no_stray(state, topic, bounds, partitions as int);
        } else {
            let partition = choose|partition: i32|
                0 <= partition < partitions && !(#[trigger] state.offset_of(
                    topic.name,
                    partition,
                ) matches Some(offset) ==> {
                    let key = transfers::boundary_key(
                        transfer.source.instance,
                        transfer.source.topic,
                        partition,
                    );
                    bounds.contains_key(key) ==> bounds[key].low <= offset <= bounds[key].high
                });
            assert(strays(state, topic, bounds, partition));
            lemma_stray_is_found(state, topic, bounds, partition as int, partitions as int);
        }
    }
}

/// An existing topic is kept exactly where it agrees with what is asked for, has
/// been filled from the configured archive if it has one, agrees with its saved
/// progress, and is the topic that is recorded. Otherwise it is recreated for the
/// first of these reasons.
pub proof fn law_topics_are_kept_for_no_less(
    state: OffsetState,
    topic: TopicView,
    mismatch: Option<Seq<char>>,
    fingerprint: Option<Seq<char>>,
    bounds: Map<Seq<char>, Watermarks>,
    partitions: i32,
    identity_drift: Option<Seq<char>>,
)
    ensures
        ({
            let filled = topic.restore is Some && fingerprint is Some ==> {
                &&& state.restores@.contains_key(topic.name)
                &&& state.restores@[topic.name].archive_sha256@ == fingerprint->0
                &&& state.restores@[topic.name].archive_format_version == 2
            };
            let drift = drift_of(
                state,
                topic,
                mismatch,
                fingerprint,
                bounds,
                partitions,
                identity_drift,
            );
            &&& drift is None <==> {
                &&& mismatch is None
                &&& filled
                &&& clone_drift(state, topic, bounds, partitions) is None
                &&& identity_drift is None
            }
            &&& mismatch is Some ==> drift == mismatch
            &&& mismatch is None && filled && clone_drift(state, topic, bounds, partitions) is Some
                ==> drift == clone_drift(state, topic, bounds, partitions)
            &&& mismatch is None && filled && clone_drift(state, topic, bounds, partitions) is None
                ==> drift == identity_drift
        }),
{
}

/// A missing topic is created; an existing one is kept exactly where nothing about
/// it is drifted, and otherwise recreated for the reason that is told.
pub proof fn law_actions_follow_from_drift(existing: bool, drift: Option<Seq<char>>)
    ensures
        !existing ==> action_of(existing, drift) == ActionView::Create,
        existing && drift is None ==> action_of(existing, drift) == ActionView::Keep,
        existing && drift is Some ==> action_of(existing, drift) == ActionView::Recreate(drift->0),
{
}

/// Recreations that are not authorized are held up, and nothing else is.
pub proof fn law_unauthorized_recreations_are_held_up(plan: PlanView, topic: Seq<char>)
    ensures
        oversteps(plan) <==> plan.action is Recreate && !plan.authorized,
        plan.action matches ActionView::Recreate(reason) ==> required_text(topic, plan.action)
            == Some(topic + ": "@ + reason),
{
}

/// Texts are joined in order, each next one behind what stands between them.
pub proof fn law_texts_are_joined_in_order(
    parts: Seq<Seq<char>>,
    next: Seq<char>,
    between: Seq<char>,
)
    ensures
        joined(Seq::empty(), between) == Seq::<char>::empty(),
        joined(seq![next], between) == next,
        parts.len() > 0 ==> joined(parts.push(next), between) == joined(parts, between) + between
            + next,
{
    assert(parts.push(next).drop_last() =~= parts);
}

/// The steps of a plan. A kept topic is not touched. A fresh one starts with
/// cleared state, is deleted first where it is recreated, is created and awaited,
/// and loses every group's offsets before it is filled: a clone is bound to its
/// source, and an archive is restored between recording the topic's identity and
/// checking it again, and marked at the end.
pub proof fn law_steps_of_a_plan(topic: TopicView, reason: Seq<char>, fingerprint: bool)
    ensures
        ({
            let clone = topic.transfer matches Some(transfer) && transfer.kind
                == TransferKind::Clone;
            let filling = if clone {
                seq![ReconcileStep::RecordIdentity, ReconcileStep::BeginClone]
            } else if topic.restore is Some && fingerprint {
                seq![
                    ReconcileStep::RecordIdentity,
                    ReconcileStep::RestoreArchive,
                    ReconcileStep::CheckIdentity,
                    ReconcileStep::MarkRestored,
                ]
            } else {
                seq![]
            };
            let fresh = seq![
                ReconcileStep::CreateTopic,
                ReconcileStep::AwaitTopic,
                ReconcileStep::DeleteGroupOffsets,
            ] + filling;
            &&& steps_of(topic, ActionView::Keep, fingerprint) == Seq::<ReconcileStep>::empty()
            &&& steps_of(topic, ActionView::Create, fingerprint) == seq![ReconcileStep::ClearState]
                + fresh
            &&& steps_of(topic, ActionView::Recreate(reason), fingerprint) == seq![
                ReconcileStep::ClearState,
                ReconcileStep::DeleteTopic,
            ] + fresh
        }),
{
}

/// The partition that is told for its replicas is the first whose number differs.
pub proof fn law_first_misreplicated_partition_is_told(
    partitions: Seq<MetadataPartition>,
    expected: i32,
    at: int,
)
    requires
        0 <= at < partitions.len(),
        partitions[at].replicas as i32 != expected,
        forall|i: int| 0 <= i < at ==> (#[trigger] partitions[i]).replicas as i32 == expected,
    ensures
        misreplicated(partitions, expected) == Some(partitions[at]),
    decreases at,
{
    if at > 0 {
        let rest = partitions.drop_first();
        assert forall|i: int| 0 <= i < at - 1 implies (#[trigger] rest[i]).replicas as i32
            == expected by {
            assert(rest[i] == partitions[i + 1]);
        }
        assert(partitions[0].replicas as i32 == expected);
        law_first_misreplicated_partition_is_told(rest, expected, at - 1);
    }
}

/// The saved offset that is told for lying outside the watermarks is that of the
/// first partition where it does.
pub proof fn law_first_stray_offset_is_told(
    state: OffsetState,
    topic: TopicView,
    bounds: Map<Seq<char>, Watermarks>,
    at: i32,
    partitions: i32,
)
    requires
        0 <= at < partitions,
        strays(state, topic, bounds, at),
        forall|i: i32| 0 <= i < at ==> !#[trigger] strays(state, topic, bounds, i),
    ensures
        stray_partition(state, topic, bounds, partitions as int) == Some(at),
{
    lemma_no_stray(state, topic, bounds, at as int);
    lemma_first_stray(state, topic, bounds, at as int, partitions as int);
}

} // verus!
