//! Restoring and running: what a command needs, which partitions it transfers,
//! and when it stops.

use crate::assignment;
use crate::config;
use crate::config::{validate_config, AppConfig};
use crate::failure;
use crate::failure::{fail, Failure, FailureView};
use crate::metadata;
use crate::metadata::{Metadata, MetadataPartition};
use crate::state;
use crate::state::OffsetState;
use crate::text;
use crate::text_map::TextMap;
use crate::topics;
use crate::topics::{
    resolve_config_path, resolve_topics, ManagedTopic, TransferKind, TransferPlan, TransferView,
};
use crate::transfers;
use crate::transfers::{
    collect_clone_topics_by_source, collect_transfer_topics_by_source, CloneEndOffsets,
    Watermarks,
};
use vstd::prelude::*;

verus! {

/// What a command does: one bounded pass, or transfer until it is stopped.
#[derive(Debug, Clone, Copy, PartialEq, Eq, Structural)]
pub enum ExecutionMode {
    Restore,
    Run,
}

/// What a command works on.
#[derive(Debug)]
pub struct Execution {
    pub state_file: String,
    pub topics: Vec<ManagedTopic>,
    pub transfer_topics: TextMap<Vec<TransferPlan>>,
    pub clone_topics: TextMap<Vec<TransferPlan>>,
}

/// Where the state registry is: in the directory that is asked for, in the file
/// that the configuration names, or else in a directory of its own below the
/// current one.
pub open spec fn state_path(
    base: Option<Seq<char>>,
    state_file: Option<String>,
    state_directory: Option<&str>,
) -> Seq<char> {
    match (state_directory, state_file) {
        (Some(directory), _) => topics::resolved_path(Some(directory@), "state.json"@),
        (None, Some(file)) => topics::resolved_path(base, file@),
        (None, None) => ".fransson/state.json"@,
    }
}

/// Works out where the state registry is.
pub fn resolve_state_path(
    directory: Option<&str>,
    state_file: &Option<String>,
    state_directory: Option<&str>,
) -> (r: String)
    ensures
        r@ == state_path(
            match directory {
                Some(directory) => Some(directory@),
                None => None,
            },
            *state_file,
            state_directory,
        ),
{
    match state_directory {
        Some(state_directory) => resolve_config_path(Some(state_directory), "state.json"),
        None => match state_file {
            Some(file) => resolve_config_path(directory, file.as_str()),
            None => ".fransson/state.json".to_owned(),
        },
    }
}

/// What is missing in a configuration.
pub open spec fn requirement_fault(config: AppConfig) -> Option<FailureView> {
    if config.destination is None {
        Some(failure::failed("destination is required by restore and run"@))
    } else if config.topics@.len() == 0 {
        Some(
            failure::failed(
                "topics must contain at least one destination for restore and run"@,
            ),
        )
    } else {
        None
    }
}

/// A topic among the configured ones is a clone or a stream.
pub open spec fn transfers_something(config: AppConfig) -> bool {
    exists|i: int|
        0 <= i < config.topics@.len() && topics::transfer_of(#[trigger] config.topics@[i]) is Some
}

/// What keeps a command from being carried out: a fault of the configuration,
/// something missing in it, a fault of its topics, or nothing to run.
pub open spec fn execution_fault(config: AppConfig, mode: ExecutionMode) -> Option<FailureView> {
    failure::first(
        config::config_fault(config),
        failure::first(
            requirement_fault(config),
            failure::first(
                topics::definitions_fault(config, config.topics@.len() as int),
                if mode == ExecutionMode::Run && !transfers_something(config) {
                    Some(failure::failed("run requires at least one clone or stream topic"@))
                } else {
                    None
                },
            ),
        ),
    )
}

fn check_requirements(config: &AppConfig) -> (r: Result<(), Failure>)
    ensures
        failure::tells(r, requirement_fault(*config)),
{
    if config.destination.is_none() {
        return Err(fail("destination is required by restore and run".to_owned()));
    }
    if config.topics.len() == 0 {
        return Err(
            fail(
                "topics must contain at least one destination for restore and run".to_owned(),
            ),
        );
    }
    Ok(())
}

proof fn lemma_no_transfers(topics: Seq<ManagedTopic>, source: Seq<char>)
    requires
        forall|i: int| 0 <= i < topics.len() ==> (#[trigger] topics[i])@.transfer is None,
    ensures
        transfers::transfers_from(topics, None, source).len() == 0,
    decreases topics.len(),
{
    if topics.len() > 0 {
        let front = topics.drop_last();
        assert forall|i: int| 0 <= i < front.len() implies (#[trigger] front[i])@.transfer is None by {
            assert(front[i] == topics[i]);
        }
        lemma_no_transfers(front, source);
    }
}

/// Works out what a command works on. Paths in the configuration are taken
/// relative to the directory of its file.
pub fn prepare_execution(
    config: &AppConfig,
    directory: Option<&str>,
    state_directory: Option<&str>,
    mode: ExecutionMode,
) -> (r: Result<Execution, Failure>)
    ensures
        failure::tells(r, execution_fault(*config, mode)),
        r matches Ok(execution) ==> {
            let base = match directory {
                Some(directory) => Some(directory@),
                None => None,
            };
            &&& execution.state_file@ == state_path(base, config.state_file, state_directory)
            &&& execution.topics@.len() == config.topics@.len()
            &&& forall|i: int|
                0 <= i < execution.topics@.len() ==> (#[trigger] execution.topics@[i])@
                    == topics::managed(config.topics@[i], base)
            &&& transfers::groups(execution.transfer_topics@, execution.topics@, None)
            &&& transfers::groups(
                execution.clone_topics@,
                execution.topics@,
                Some(TransferKind::Clone),
            )
        },
{
    validate_config(config)?;
    check_requirements(config)?;
    let topics = resolve_topics(config, directory)?;
    let transfer_topics = collect_transfer_topics_by_source(topics.as_slice());
    let idle = transfer_topics.is_empty();
    proof {
        let base = match directory {
            Some(directory) => Some(directory@),
            None => None,
        };
        if transfers_something(*config) {
            let i = choose|i: int|
                0 <= i < config.topics@.len() && topics::transfer_of(
                    #[trigger] config.topics@[i],
                ) is Some;
            assert(topics@[i]@ == topics::managed(config.topics@[i], base));
            transfers::law_every_transfer_is_active_in_run(topics@, i);
            let source = topics@[i]@.transfer->0.source.instance;
            assert(transfers::transfers_from(topics@, None, source).len() > 0);
            assert(transfer_topics@.contains_key(source));
        } else {
            assert forall|i: int| 0 <= i < topics@.len() implies (
            #[trigger] topics@[i])@.transfer is None by {
                assert(topics@[i]@ == topics::managed(config.topics@[i], base));
            }
            assert forall|source: Seq<char>| !transfer_topics@.contains_key(source) by {
                lemma_no_transfers(topics@, source);
            }
            assert(transfer_topics@ =~= Map::<Seq<char>, Vec<TransferPlan>>::empty());
        }
    }
    if mode == ExecutionMode::Run && idle {
        return Err(fail("run requires at least one clone or stream topic".to_owned()));
    }
    let clone_topics = collect_clone_topics_by_source(topics.as_slice());
    let state_file = resolve_state_path(directory, &config.state_file, state_directory);
    Ok(Execution { state_file, topics, transfer_topics, clone_topics })
}

/// A stream is among some topics.
pub open spec fn has_stream(topics: Seq<ManagedTopic>) -> bool {
    exists|i: int| 0 <= i < topics.len() && state::is_stream((#[trigger] topics[i])@)
}

/// Whether a producer for streams is needed: only while running, and only where
/// there are streams.
pub fn needs_stream_producer(mode: ExecutionMode, topics: &[ManagedTopic]) -> (r: bool)
    ensures
        r == (mode == ExecutionMode::Run && has_stream(topics@)),
{
    if mode != ExecutionMode::Run {
        return false;
    }
    let mut i: usize = 0;
    while i < topics.len()
        invariant
            i <= topics@.len(),
            mode == ExecutionMode::Run,
            forall|j: int| 0 <= j < i ==> !state::is_stream((#[trigger] topics@[j])@),
        decreases topics@.len() - i,
    {
        let stream = match &topics[i].transfer {
            Some(transfer) => transfer.kind == TransferKind::Stream,
            None => false,
        };
        if stream {
            assert(state::is_stream(topics@[i as int]@));
            return true;
        }
        i = i + 1;
    }
    false
}

/// A partition that is transferred, the source offset that reading starts at,
/// where it is known, and the one that it ends in front of, if it ends.
#[derive(Debug)]
pub struct PartitionWork {
    pub plan: TransferPlan,
    pub partition: i32,
    pub start_offset: Option<i64>,
    pub end_offset: Option<i64>,
}

/// A partition that is transferred.
#[verifier::ext_equal]
pub struct WorkView {
    pub plan: TransferView,
    pub partition: i32,
    pub start_offset: Option<i64>,
    pub end_offset: Option<i64>,
}

impl View for PartitionWork {
    type V = WorkView;

    open spec fn view(&self) -> WorkView {
        WorkView {
            plan: self.plan@,
            partition: self.partition,
            start_offset: self.start_offset,
            end_offset: self.end_offset,
        }
    }
}

/// Some partitions that are transferred.
pub open spec fn work_views(work: Seq<PartitionWork>) -> Seq<WorkView> {
    work.map_values(|item: PartitionWork| item@)
}

/// The source offset that reading a transfer's partition starts at: where it
/// left off, or else the first one that its source still holds, where that is
/// known.
pub open spec fn start_of(
    plan: TransferPlan,
    partition: i32,
    state: OffsetState,
    bounds: Map<Seq<char>, Watermarks>,
) -> Option<i64> {
    let key = transfers::boundary_key(plan.source.instance@, plan.source.topic@, partition);
    match assignment::saved_offset(plan, state, partition) {
        Some(saved) => Some(saved),
        None => if bounds.contains_key(key) {
            Some(bounds[key].low)
        } else {
            None
        },
    }
}

/// A transfer's partition: while restoring, it ends at the captured end.
pub open spec fn work_of(
    plan: TransferPlan,
    partition: i32,
    mode: ExecutionMode,
    state: OffsetState,
    ends: Map<Seq<char>, i64>,
    bounds: Map<Seq<char>, Watermarks>,
) -> WorkView {
    let key = transfers::boundary_key(plan.source.instance@, plan.source.topic@, partition);
    WorkView {
        plan: plan@,
        partition,
        start_offset: if mode == ExecutionMode::Restore {
            start_of(plan, partition, state, bounds)
        } else {
            None
        },
        end_offset: if mode == ExecutionMode::Restore {
            Some(ends[key])
        } else {
            None
        },
    }
}

/// The partitions of a transfer.
pub open spec fn plan_work(
    plan: TransferPlan,
    partitions: Seq<MetadataPartition>,
    mode: ExecutionMode,
    state: OffsetState,
    ends: Map<Seq<char>, i64>,
    bounds: Map<Seq<char>, Watermarks>,
) -> Seq<WorkView> {
    partitions.map_values(
        |partition: MetadataPartition|
            work_of(plan, partition.id, mode, state, ends, bounds),
    )
}

/// The partitions of some transfers, transfer after transfer.
pub open spec fn all_work(
    metadata: Metadata,
    plans: Seq<TransferPlan>,
    mode: ExecutionMode,
    state: OffsetState,
    ends: Map<Seq<char>, i64>,
    bounds: Map<Seq<char>, Watermarks>,
) -> Seq<WorkView>
    decreases plans.len(),
{
    if plans.len() == 0 {
        Seq::empty()
    } else {
        all_work(metadata, plans.drop_last(), mode, state, ends, bounds) + plan_work(
            plans.last(),
            metadata::topic_of(metadata, plans.last().source.topic@)->0.partitions@,
            mode,
            state,
            ends,
            bounds,
        )
    }
}

/// A partition must have a captured end while restoring.
pub open spec fn end_fault(
    plan: TransferPlan,
    partition: i32,
    mode: ExecutionMode,
    ends: Map<Seq<char>, i64>,
) -> Option<FailureView> {
    let key = transfers::boundary_key(plan.source.instance@, plan.source.topic@, partition);
    if mode == ExecutionMode::Restore && !ends.contains_key(key) {
        Some(
            failure::failed(
                "missing captured end offset for "@ + plan.source.instance@ + ":"@
                    + plan.source.topic@ + " partition "@ + text::decimal(partition as int),
            ),
        )
    } else {
        None
    }
}

/// The first partition of a transfer without a captured end.
pub open spec fn ends_fault(
    plan: TransferPlan,
    partitions: Seq<MetadataPartition>,
    mode: ExecutionMode,
    ends: Map<Seq<char>, i64>,
) -> Option<FailureView>
    decreases partitions.len(),
{
    if partitions.len() == 0 {
        None
    } else {
        failure::first(
            ends_fault(plan, partitions.drop_last(), mode, ends),
            end_fault(plan, partitions.last().id, mode, ends),
        )
    }
}

/// The first thing wrong with the partitions of some transfers.
pub open spec fn work_fault(
    metadata: Metadata,
    plans: Seq<TransferPlan>,
    mode: ExecutionMode,
    ends: Map<Seq<char>, i64>,
) -> Option<FailureView>
    decreases plans.len(),
{
    if plans.len() == 0 {
        None
    } else {
        failure::first(
            work_fault(metadata, plans.drop_last(), mode, ends),
            match metadata::topic_of(metadata, plans.last().source.topic@) {
                None => Some(assignment::missing_topic(plans.last().source.topic@)),
                Some(topic) => ends_fault(plans.last(), topic.partitions@, mode, ends),
            },
        )
    }
}

proof fn lemma_ends_fault_stays(
    plan: TransferPlan,
    partitions: Seq<MetadataPartition>,
    mode: ExecutionMode,
    ends: Map<Seq<char>, i64>,
    count: int,
)
    requires
        0 <= count <= partitions.len(),
        ends_fault(plan, partitions.take(count), mode, ends) is Some,
    ensures
        ends_fault(plan, partitions, mode, ends) == ends_fault(
            plan,
            partitions.take(count),
            mode,
            ends,
        ),
    decreases partitions.len(),
{
    if count < partitions.len() {
        assert(partitions.drop_last().take(count) == partitions.take(count));
        lemma_ends_fault_stays(plan, partitions.drop_last(), mode, ends, count);
    } else {
        assert(partitions.take(count) == partitions);
    }
}

proof fn lemma_work_fault_stays(
    metadata: Metadata,
    plans: Seq<TransferPlan>,
    mode: ExecutionMode,
    ends: Map<Seq<char>, i64>,
    count: int,
)
    requires
        0 <= count <= plans.len(),
        work_fault(metadata, plans.take(count), mode, ends) is Some,
    ensures
        work_fault(metadata, plans, mode, ends) == work_fault(
            metadata,
            plans.take(count),
            mode,
            ends,
        ),
    decreases plans.len(),
{
    if count < plans.len() {
        assert(plans.drop_last().take(count) == plans.take(count));
        lemma_work_fault_stays(metadata, plans.drop_last(), mode, ends, count);
    } else {
        assert(plans.take(count) == plans);
    }
}

fn partition_work(
    plan: &TransferPlan,
    partition: i32,
    mode: ExecutionMode,
    state: &OffsetState,
    ends: &CloneEndOffsets,
    bounds: &TextMap<Watermarks>,
) -> (r: Result<PartitionWork, Failure>)
    ensures
        failure::tells(r, end_fault(*plan, partition, mode, ends@)),
        r matches Ok(work) ==> work@ == work_of(
            *plan,
            partition,
            mode,
            *state,
            ends@,
            bounds@,
        ),
{
    if mode != ExecutionMode::Restore {
        return Ok(
            PartitionWork {
                plan: plan.clone(),
                partition,
                start_offset: None,
                end_offset: None,
            },
        );
    }
    let key = transfers::clone_boundary_key(
        plan.source.instance.as_str(),
        plan.source.topic.as_str(),
        partition,
    );
    match ends.get(key.as_str()) {
        Some(end) => {
            let start_offset = match assignment::saved_for(plan, state, partition) {
                Some(saved) => Some(saved),
                None => match bounds.get(key.as_str()) {
                    Some(marks) => Some(marks.low),
                    None => None,
                },
            };
            Ok(
                PartitionWork {
                    plan: plan.clone(),
                    partition,
                    start_offset,
                    end_offset: Some(*end),
                },
            )
        },
        None => {
            let mut message = text::join5(
                "missing captured end offset for ",
                plan.source.instance.as_str(),
                ":",
                plan.source.topic.as_str(),
                " partition ",
            );
            message.append(text::decimal_i64(partition as i64).as_str());
            Err(fail(message))
        },
    }
}

fn add_plan_work(
    work: &mut Vec<PartitionWork>,
    plan: &TransferPlan,
    partitions: &Vec<MetadataPartition>,
    mode: ExecutionMode,
    state: &OffsetState,
    ends: &CloneEndOffsets,
    bounds: &TextMap<Watermarks>,
) -> (r: Result<(), Failure>)
    ensures
        failure::tells(r, ends_fault(*plan, partitions@, mode, ends@)),
        r is Ok ==> work_views(final(work)@) == work_views(old(work)@) + plan_work(
            *plan,
            partitions@,
            mode,
            *state,
            ends@,
            bounds@,
        ),
{
    let ghost before = work_views(work@);
    let mut i: usize = 0;
    assert(before + plan_work(*plan, partitions@.take(0), mode, *state, ends@, bounds@) =~= before);
    while i < partitions.len()
        invariant
            i <= partitions@.len(),
            ends_fault(*plan, partitions@.take(i as int), mode, ends@) is None,
            work_views(work@) == before + plan_work(
                *plan,
                partitions@.take(i as int),
                mode,
                *state,
                ends@,
                bounds@,
            ),
        decreases partitions@.len() - i,
    {
        let ghost front = partitions@.take(i as int);
        let ghost more = partitions@.take(i + 1);
        let ghost so_far = work@;
        proof {
            assert(more.drop_last() == front);
            if ends_fault(*plan, more, mode, ends@) is Some {
                lemma_ends_fault_stays(*plan, partitions@, mode, ends@, i + 1);
            }
        }
        let item = match partition_work(
            plan,
            partitions[i].id,
            mode,
            state,
            ends,
            bounds,
        ) {
            Ok(item) => item,
            Err(failure) => {
                return Err(failure);
            },
        };
        let ghost view = item@;
        work.push(item);
        proof {
            assert(work_views(work@) =~= work_views(so_far).push(view));
            assert(plan_work(*plan, more, mode, *state, ends@, bounds@) =~= plan_work(
                *plan,
                front,
                mode,
                *state,
                ends@,
                bounds@,
            ).push(view));
            assert(work_views(work@) =~= before + plan_work(*plan, more, mode, *state, ends@, bounds@));
        }
        i = i + 1;
    }
    assert(partitions@.take(i as int) == partitions@);
    Ok(())
}

/// Works out the partitions that are transferred, where reading each starts, and
/// where it ends.
pub fn plan_partition_work(
    metadata: &Metadata,
    plans: &[TransferPlan],
    mode: ExecutionMode,
    state: &OffsetState,
    end_offsets: &CloneEndOffsets,
    watermarks: &TextMap<Watermarks>,
) -> (r: Result<Vec<PartitionWork>, Failure>)
    ensures
        failure::tells(r, work_fault(*metadata, plans@, mode, end_offsets@)),
        r matches Ok(work) ==> work_views(work@) == all_work(
            *metadata,
            plans@,
            mode,
            *state,
            end_offsets@,
            watermarks@,
        ),
{
    let mut work: Vec<PartitionWork> = Vec::new();
    let mut i: usize = 0;
    assert(work_views(work@) =~= Seq::<WorkView>::empty());
    assert(plans@.take(0) == Seq::<TransferPlan>::empty());
    while i < plans.len()
        invariant
            i <= plans@.len(),
            work_fault(*metadata, plans@.take(i as int), mode, end_offsets@) is None,
            work_views(work@) == all_work(
                *metadata,
                plans@.take(i as int),
                mode,
                *state,
                end_offsets@,
                watermarks@,
            ),
        decreases plans@.len() - i,
    {
        let plan = &plans[i];
        proof {
            assert(plans@.take(i + 1).drop_last() == plans@.take(i as int));
            if work_fault(*metadata, plans@.take(i + 1), mode, end_offsets@) is Some {
                lemma_work_fault_stays(*metadata, plans@, mode, end_offsets@, i + 1);
            }
        }
        match metadata.find(plan.source.topic.as_str()) {
            None => {
                return Err(
                    fail(
                        text::join2(
                            "missing metadata for source topic ",
                            plan.source.topic.as_str(),
                        ),
                    ),
                );
            },
            Some(topic) => {
                if let Err(failure) = add_plan_work(
                    &mut work,
                    plan,
                    &topic.partitions,
                    mode,
                    state,
                    end_offsets,
                    watermarks,
                ) {
                    return Err(failure);
                }
            },
        }
        i = i + 1;
    }
    assert(plans@.take(i as int) == plans@);
    Ok(work)
}

/// The tasks of a command: those that transfer partitions, and those behind
/// them.
#[derive(Debug, Clone, Copy, PartialEq, Eq, Structural)]
pub enum TaskKind {
    Worker,
    Background,
}

/// How a task came to its end, or that there is none left.
#[derive(Debug, Clone, Copy, PartialEq, Eq, Structural)]
pub enum TaskExit {
    Finished,
    Failed,
    Panicked,
    NoneLeft,
}

/// What the end of a task means for its command: it goes on, it fails as the
/// task has failed, or it fails with a report of its own.
#[derive(Debug, Clone, Copy, PartialEq, Eq, Structural)]
pub enum Verdict {
    GoOn,
    FailAsTask,
    Panicked,
    Unexpected,
    NoneLeft,
}

/// Only a worker that has finished while restoring lets its command go on.
pub open spec fn verdict_of(mode: ExecutionMode, task: TaskKind, exit: TaskExit) -> Verdict {
    match exit {
        TaskExit::Failed => Verdict::FailAsTask,
        TaskExit::Panicked => Verdict::Panicked,
        TaskExit::NoneLeft => Verdict::NoneLeft,
        TaskExit::Finished => if mode == ExecutionMode::Restore && task == TaskKind::Worker {
            Verdict::GoOn
        } else {
            Verdict::Unexpected
        },
    }
}

/// Judges the end of a task.
pub fn judge_exit(mode: ExecutionMode, task: TaskKind, exit: TaskExit) -> (r: Verdict)
    ensures
        r == verdict_of(mode, task, exit),
{
    match exit {
        TaskExit::Failed => Verdict::FailAsTask,
        TaskExit::Panicked => Verdict::Panicked,
        TaskExit::NoneLeft => Verdict::NoneLeft,
        TaskExit::Finished => if mode == ExecutionMode::Restore && task == TaskKind::Worker {
            Verdict::GoOn
        } else {
            Verdict::Unexpected
        },
    }
}

/// What is said of a command that stops because of a task, where the task does
/// not speak for itself.
pub open spec fn verdict_text(mode: ExecutionMode, task: TaskKind, verdict: Verdict) -> Option<
    Seq<char>,
> {
    match (verdict, task) {
        (Verdict::Panicked, TaskKind::Worker) => Some("transfer partition task panicked"@),
        (Verdict::Panicked, TaskKind::Background) => Some("background task panicked"@),
        (Verdict::Unexpected, TaskKind::Worker) => Some(
            "transfer partition task exited unexpectedly"@,
        ),
        (Verdict::Unexpected, TaskKind::Background) => Some("background task exited unexpectedly"@),
        (Verdict::NoneLeft, TaskKind::Worker) => Some(
            if mode == ExecutionMode::Restore {
                "transfer partition task disappeared"@
            } else {
                "all transfer partition tasks exited unexpectedly"@
            },
        ),
        (Verdict::NoneLeft, TaskKind::Background) => Some(
            if mode == ExecutionMode::Restore {
                "background task disappeared"@
            } else {
                "all background tasks exited unexpectedly"@
            },
        ),
        _ => None,
    }
}

/// What is said of a command that stops because of a task, where the task does
/// not speak for itself.
pub fn verdict_message(mode: ExecutionMode, task: TaskKind, verdict: Verdict) -> (r: Option<String>)
    ensures
        (match r {
            Some(message) => Some(message@),
            None => None,
        }) == verdict_text(mode, task, verdict),
{
    let restoring = mode == ExecutionMode::Restore;
    let message = match (verdict, task) {
        (Verdict::Panicked, TaskKind::Worker) => "transfer partition task panicked",
        (Verdict::Panicked, TaskKind::Background) => "background task panicked",
        (Verdict::Unexpected, TaskKind::Worker) => "transfer partition task exited unexpectedly",
        (Verdict::Unexpected, TaskKind::Background) => "background task exited unexpectedly",
        (Verdict::NoneLeft, TaskKind::Worker) => if restoring {
            "transfer partition task disappeared"
        } else {
            "all transfer partition tasks exited unexpectedly"
        },
        (Verdict::NoneLeft, TaskKind::Background) => if restoring {
            "background task disappeared"
        } else {
            "all background tasks exited unexpectedly"
        },
        _ => {
            return None;
        },
    };
    Some(message.to_owned())
}

/// While running, no task's end lets the command go on.
pub proof fn law_running_outlives_no_task(task: TaskKind, exit: TaskExit)
    ensures
        verdict_of(ExecutionMode::Run, task, exit) != Verdict::GoOn,
{
}

/// The work of a command is every partition of every transfer's source topic,
/// transfer after transfer and in the order of the metadata. While restoring, each
/// starts where its clone left off, or else at the low watermark where that is
/// known, and ends at its captured end; while running, none ends.
pub proof fn law_every_partition_is_worked_on(
    metadata: Metadata,
    plans: Seq<TransferPlan>,
    mode: ExecutionMode,
    state: OffsetState,
    ends: Map<Seq<char>, i64>,
    bounds: Map<Seq<char>, Watermarks>,
)
    ensures
        all_work(metadata, plans, mode, state, ends, bounds) == plans.flat_map(
            |plan: TransferPlan|
                metadata::topic_of(metadata, plan.source.topic@)->0.partitions@.map_values(
                    |partition: MetadataPartition|
                        {
                            let key = transfers::boundary_key(
                                plan.source.instance@,
                                plan.source.topic@,
                                partition.id,
                            );
                            let saved = if plan.kind == TransferKind::Clone {
                                state.offset_of(plan.destination_topic@, partition.id)
                            } else {
                                None
                            };
                            WorkView {
                                plan: plan@,
                                partition: partition.id,
                                start_offset: if mode == ExecutionMode::Run {
                                    None
                                } else if saved is Some {
                                    saved
                                } else if bounds.contains_key(key) {
                                    Some(bounds[key].low)
                                } else {
                                    None
                                },
                                end_offset: if mode == ExecutionMode::Run {
                                    None
                                } else {
                                    Some(ends[key])
                                },
                            }
                        },
                ),
        ),
    decreases plans.len(),
{
    let work = |plan: TransferPlan|
        metadata::topic_of(metadata, plan.source.topic@)->0.partitions@.map_values(
            |partition: MetadataPartition|
                {
                    let key = transfers::boundary_key(
                        plan.source.instance@,
                        plan.source.topic@,
                        partition.id,
                    );
                    let saved = if plan.kind == TransferKind::Clone {
                        state.offset_of(plan.destination_topic@, partition.id)
                    } else {
                        None
                    };
                    WorkView {
                        plan: plan@,
                        partition: partition.id,
                        start_offset: if mode == ExecutionMode::Run {
                            None
                        } else if saved is Some {
                            saved
                        } else if bounds.contains_key(key) {
                            Some(bounds[key].low)
                        } else {
                            None
                        },
                        end_offset: if mode == ExecutionMode::Run {
                            None
                        } else {
                            Some(ends[key])
                        },
                    }
                },
        );
    let all = all_work(metadata, plans, mode, state, ends, bounds);
    if plans.len() > 0 {
        let front = plans.drop_last();
        let last = plans.last();
        law_every_partition_is_worked_on(metadata, front, mode, state, ends, bounds);
        assert(work(last) =~= plan_work(
            last,
            metadata::topic_of(metadata, last.source.topic@)->0.partitions@,
            mode,
            state,
            ends,
            bounds,
        ));
        assert(plans.map_values(work) =~= front.map_values(work).push(work(last)));
        front.map_values(work).lemma_flatten_push(work(last));
        assert(all =~= plans.flat_map(work));
    } else {
        assert(plans.map_values(work) =~= Seq::empty());
        assert(all =~= plans.flat_map(work));
    }
}

proof fn lemma_end_faults(
    plan: TransferPlan,
    partitions: Seq<MetadataPartition>,
    mode: ExecutionMode,
    ends: Map<Seq<char>, i64>,
)
    ensures
        ends_fault(plan, partitions, mode, ends) is None <==> (mode == ExecutionMode::Restore
            ==> forall|i: int|
            0 <= i < partitions.len() ==> ends.contains_key(
                transfers::boundary_key(
                    plan.source.instance@,
                    plan.source.topic@,
                    (#[trigger] partitions[i]).id,
                ),
            )),
    decreases partitions.len(),
{
    if partitions.len() > 0 {
        let front = partitions.drop_last();
        lemma_end_faults(plan, front, mode, ends);
        assert(forall|i: int| 0 <= i < front.len() ==> partitions[i] == #[trigger] front[i]);
        if ends_fault(plan, partitions, mode, ends) is None {
            if mode == ExecutionMode::Restore {
                assert forall|i: int| 0 <= i < partitions.len() implies ends.contains_key(
                    transfers::boundary_key(
                        plan.source.instance@,
                        plan.source.topic@,
                        (#[trigger] partitions[i]).id,
                    ),
                ) by {
                    if i < front.len() {
                        assert(front[i] == partitions[i]);
                    }
                }
            }
        } else if ends_fault(plan, front, mode, ends) is None {
            assert(partitions[partitions.len() - 1] == partitions.last());
        }
    }
}

/// Work is planned exactly where every source topic is in the metadata and, while
/// restoring, every partition of it has a captured end.
pub proof fn law_work_needs_captured_ends(
    metadata: Metadata,
    plans: Seq<TransferPlan>,
    mode: ExecutionMode,
    ends: Map<Seq<char>, i64>,
)
    ensures
        work_fault(metadata, plans, mode, ends) is None <==> forall|at: int|
            0 <= at < plans.len() ==> {
                let plan = #[trigger] plans[at];
                let found = metadata::topic_of(metadata, plan.source.topic@);
                &&& found is Some
                &&& mode == ExecutionMode::Restore ==> forall|i: int|
                    0 <= i < found->0.partitions@.len() ==> ends.contains_key(
                        transfers::boundary_key(
                            plan.source.instance@,
                            plan.source.topic@,
                            (#[trigger] found->0.partitions@[i]).id,
                        ),
                    )
            },
    decreases plans.len(),
{
    if plans.len() > 0 {
        let front = plans.drop_last();
        let last = plans.last();
        law_work_needs_captured_ends(metadata, front, mode, ends);
        let found = metadata::topic_of(metadata, last.source.topic@);
        lemma_end_faults(last, found->0.partitions@, mode, ends);
        let ready = |plan: TransferPlan|
            {
                let found = metadata::topic_of(metadata, plan.source.topic@);
                &&& found is Some
                &&& mode == ExecutionMode::Restore ==> forall|i: int|
                    0 <= i < found->0.partitions@.len() ==> ends.contains_key(
                        transfers::boundary_key(
                            plan.source.instance@,
                            plan.source.topic@,
                            (#[trigger] found->0.partitions@[i]).id,
                        ),
                    )
            };
        assert(plans[plans.len() - 1] == last);
        assert(ready(last) <==> (match found {
            None => false,
            Some(topic) => ends_fault(last, topic.partitions@, mode, ends) is None,
        }));
        assert(work_fault(metadata, front, mode, ends) is None <==> forall|at: int|
            0 <= at < front.len() ==> ready(#[trigger] front[at]));
        if work_fault(metadata, plans, mode, ends) is None {
            assert forall|at: int| 0 <= at < plans.len() implies ready(#[trigger] plans[at]) by {
                if at < front.len() {
                    assert(ready(front[at]));
                }
            }
        } else if work_fault(metadata, front, mode, ends) is Some {
            let at = choose|at: int| 0 <= at < front.len() && !ready(#[trigger] front[at]);
            assert(!ready(plans[at]));
        } else {
            assert(!ready(plans[plans.len() - 1]));
        }
        assert(work_fault(metadata, plans, mode, ends) is None <==> forall|at: int|
            0 <= at < plans.len() ==> ready(#[trigger] plans[at]));
    }
}

/// A command is carried out exactly where the configuration is valid, has a
/// destination and topics, the topics are well defined, and there is something to
/// transfer where it runs.
pub proof fn law_commands_need_their_configuration(config: AppConfig, mode: ExecutionMode)
    ensures
        execution_fault(config, mode) is None <==> {
            &&& config::config_fault(config) is None
            &&& config.destination is Some
            &&& config.topics@.len() > 0
            &&& topics::definitions_fault(config, config.topics@.len() as int) is None
            &&& mode == ExecutionMode::Run ==> exists|i: int|
                0 <= i < config.topics@.len() && ((#[trigger] config.topics@[i]).clone is Some
                    || config.topics@[i].stream is Some)
        },
{
    if transfers_something(config) {
        let i = choose|i: int|
            0 <= i < config.topics@.len() && topics::transfer_of(
                #[trigger] config.topics@[i],
            ) is Some;
        assert(config.topics@[i].clone is Some || config.topics@[i].stream is Some);
    }
    if exists|i: int|
        0 <= i < config.topics@.len() && ((#[trigger] config.topics@[i]).clone is Some
            || config.topics@[i].stream is Some) {
        let i = choose|i: int|
            0 <= i < config.topics@.len() && ((#[trigger] config.topics@[i]).clone is Some
                || config.topics@[i].stream is Some);
        assert(topics::transfer_of(config.topics@[i]) is Some);
    }
}

/// A producer for streams is needed where one of the topics is a stream.
pub proof fn law_streams_need_a_producer(topics: Seq<ManagedTopic>)
    ensures
        has_stream(topics) <==> exists|i: int|
            0 <= i < topics.len() && (#[trigger] topics[i]).transfer is Some
                && topics[i].transfer->0.kind == TransferKind::Stream,
{
    if has_stream(topics) {
        let i = choose|i: int| 0 <= i < topics.len() && state::is_stream((#[trigger] topics[i])@);
        assert(topics[i].transfer is Some);
    }
    if exists|i: int|
        0 <= i < topics.len() && (#[trigger] topics[i]).transfer is Some
            && topics[i].transfer->0.kind == TransferKind::Stream {
        let i = choose|i: int|
            0 <= i < topics.len() && (#[trigger] topics[i]).transfer is Some
                && topics[i].transfer->0.kind == TransferKind::Stream;
        assert(state::is_stream(topics[i]@));
    }
}

/// The registry is where it is asked for first, then where the configuration says,
/// and otherwise at its own place below the current directory.
pub proof fn law_registries_have_their_place(
    base: Option<Seq<char>>,
    state_file: Option<String>,
    state_directory: Option<&str>,
)
    ensures
        state_directory matches Some(directory) ==> state_path(base, state_file, state_directory)
            == topics::resolved_path(Some(directory@), "state.json"@),
        state_directory is None ==> (state_file matches Some(file) ==> state_path(
            base,
            state_file,
            state_directory,
        ) == topics::resolved_path(base, file@)),
        state_directory is None && state_file is None ==> state_path(
            base,
            state_file,
            state_directory,
        ) == ".fransson/state.json"@,
{
}

/// A command goes on exactly where a worker has finished while restoring; it fails
/// with a task that has failed, and tells of every other end.
pub proof fn law_commands_stop_with_their_tasks(mode: ExecutionMode, task: TaskKind, exit: TaskExit)
    ensures
        verdict_of(mode, task, exit) == Verdict::GoOn <==> {
            &&& exit == TaskExit::Finished
            &&& mode == ExecutionMode::Restore
            &&& task == TaskKind::Worker
        },
        verdict_of(mode, task, exit) == Verdict::FailAsTask <==> exit == TaskExit::Failed,
        verdict_text(mode, task, verdict_of(mode, task, exit)) is None <==> (exit
            == TaskExit::Failed || verdict_of(mode, task, exit) == Verdict::GoOn),
        exit == TaskExit::NoneLeft && mode == ExecutionMode::Restore ==> verdict_text(
            mode,
            task,
            verdict_of(mode, task, exit),
        ) == Some(
            if task == TaskKind::Worker {
                "transfer partition task disappeared"@
            } else {
                "background task disappeared"@
            },
        ),
        exit == TaskExit::NoneLeft && mode == ExecutionMode::Run ==> verdict_text(
            mode,
            task,
            verdict_of(mode, task, exit),
        ) == Some(
            if task == TaskKind::Worker {
                "all transfer partition tasks exited unexpectedly"@
            } else {
                "all background tasks exited unexpectedly"@
            },
        ),
{
}

/// Of a transfer's partitions without a captured end, the first is told.
pub proof fn law_first_missing_end_is_told(
    plan: TransferPlan,
    partitions: Seq<MetadataPartition>,
    mode: ExecutionMode,
    ends: Map<Seq<char>, i64>,
    at: int,
)
    requires
        0 <= at < partitions.len(),
        ends_fault(plan, partitions.take(at), mode, ends) is None,
        end_fault(plan, partitions[at].id, mode, ends) is Some,
    ensures
        ends_fault(plan, partitions, mode, ends) == end_fault(plan, partitions[at].id, mode, ends),
{
    assert(partitions.take(at + 1).drop_last() =~= partitions.take(at));
    assert(partitions.take(at + 1).last() == partitions[at]);
    lemma_ends_fault_stays(plan, partitions, mode, ends, at + 1);
}

/// Of the transfers that cannot be planned, the first is told.
pub proof fn law_first_unplanned_transfer_is_told(
    metadata: Metadata,
    plans: Seq<TransferPlan>,
    mode: ExecutionMode,
    ends: Map<Seq<char>, i64>,
    at: int,
)
    requires
        0 <= at < plans.len(),
        work_fault(metadata, plans.take(at), mode, ends) is None,
        (match metadata::topic_of(metadata, plans[at].source.topic@) {
            None => Some(
                failure::failed("missing metadata for source topic "@ + plans[at].source.topic@),
            ),
            Some(topic) => ends_fault(plans[at], topic.partitions@, mode, ends),
        }) is Some,
    ensures
        work_fault(metadata, plans, mode, ends) == (match metadata::topic_of(metadata, plans[at].source.topic@) {
            None => Some(
                failure::failed("missing metadata for source topic "@ + plans[at].source.topic@),
            ),
            Some(topic) => ends_fault(plans[at], topic.partitions@, mode, ends),
        }),
{
    assert(plans.take(at + 1).drop_last() =~= plans.take(at));
    assert(plans.take(at + 1).last() == plans[at]);
    lemma_work_fault_stays(metadata, plans, mode, ends, at + 1);
}

} // verus!
