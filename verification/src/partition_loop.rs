//! The loop that transfers one partition: what it does next, and what each thing
//! that happens changes.

use crate::failure;
use crate::failure::{fail, Failure, FailureView};
use crate::state::{CloneView, OffsetState};
use crate::status;
use crate::status::StatusBoard;
use crate::text;
use crate::text_map::TextMap;
use crate::topics;
use crate::topics::{TransferKind, TransferPlan};
use vstd::prelude::*;

verus! {

/// What became of a record that was sent.
#[derive(Debug)]
pub struct DeliveryResult {
    pub source_topic: String,
    pub destination_topic: String,
    pub partition: i32,
    pub next_offset: i64,
    pub produce_result: Result<(), String>,
}

/// Which producer a transfer sends with.
#[derive(Debug, Clone, Copy, PartialEq, Eq, Structural)]
pub enum ProducerChoice {
    Shared,
    Stream,
}

/// Chooses the producer of a transfer. There is one for streams only while
/// running.
pub fn choose_producer(kind: TransferKind, stream_available: bool) -> (r: Result<
    ProducerChoice,
    Failure,
>)
    ensures
        failure::tells(
            r,
            if kind == TransferKind::Stream && !stream_available {
                Some(failure::failed("stream producer is unavailable outside run mode"@))
            } else {
                None
            },
        ),
        r matches Ok(choice) ==> choice == (match kind {
            TransferKind::Clone => ProducerChoice::Shared,
            TransferKind::Stream => ProducerChoice::Stream,
        }),
{
    match kind {
        TransferKind::Clone => Ok(ProducerChoice::Shared),
        TransferKind::Stream => if stream_available {
            Ok(ProducerChoice::Stream)
        } else {
            Err(fail("stream producer is unavailable outside run mode".to_owned()))
        },
    }
}

/// What a partition's loop does next.
#[derive(Debug, Clone, Copy, PartialEq, Eq, Structural)]
pub enum LoopAction {
    /// Wait for the oldest record in flight to be delivered.
    AwaitDelivery,
    /// Wait for a message.
    Receive,
    /// Record the end, and stop.
    Finish,
}

/// What is done with a message.
#[derive(Debug, Clone, Copy, PartialEq, Eq, Structural)]
pub enum MessageAction {
    /// It is sent on.
    Send,
    /// It lies behind the end, and is left.
    Leave,
}

/// Why no message came.
#[derive(Debug)]
pub enum ReceiveError {
    /// A partition holds nothing more for now. The position is the offset that
    /// the consumer has come to; there is none before anything has been read.
    PartitionEof { partition: i32, position: Option<i64> },
    /// An error in its printed form.
    Other(String),
}

/// The loop of one partition: how many records are in flight, and whether the
/// end has been reached.
#[derive(Debug)]
pub struct PartitionLoop {
    max_in_flight: usize,
    start_offset: Option<i64>,
    end_offset: Option<i64>,
    in_flight: usize,
    ending: bool,
}

impl PartitionLoop {
    /// How many records may be in flight.
    pub closed spec fn limit(&self) -> nat {
        self.max_in_flight as nat
    }

    /// The source offset that reading starts at, where it is known.
    pub closed spec fn start(&self) -> Option<i64> {
        self.start_offset
    }

    /// The source offset that the partition ends in front of, if it ends.
    pub closed spec fn end(&self) -> Option<i64> {
        self.end_offset
    }

    /// How many records are in flight.
    pub closed spec fn flying(&self) -> nat {
        self.in_flight as nat
    }

    /// Whether the end has been reached.
    pub closed spec fn is_ending(&self) -> bool {
        self.ending
    }

    /// What holds of every loop: no more records are in flight than may be, and
    /// only a partition that ends reaches an end.
    pub closed spec fn valid(&self) -> bool {
        &&& 0 < self.max_in_flight
        &&& self.in_flight <= self.max_in_flight
        &&& self.ending ==> self.end_offset is Some
    }

    /// No more records are in flight than may be.
    pub proof fn law_flight_is_limited(&self)
        requires
            self.valid(),
        ensures
            self.flying() <= self.limit(),
    {
    }

    /// Only a loop with an end comes to an end.
    pub proof fn law_only_bounded_loops_end(&self)
        requires
            self.valid(),
            self.is_ending(),
        ensures
            self.end() is Some,
    {
    }

    /// The loop of a partition, with nothing in flight.
    pub fn new(
        max_in_flight: usize,
        start_offset: Option<i64>,
        end_offset: Option<i64>,
    ) -> (r: PartitionLoop)
        requires
            0 < max_in_flight,
        ensures
            r.valid(),
            r.limit() == max_in_flight,
            r.start() == start_offset,
            r.end() == end_offset,
            r.flying() == 0,
            !r.is_ending(),
    {
        PartitionLoop { max_in_flight, start_offset, end_offset, in_flight: 0, ending: false }
    }

    /// What the loop does next: at the limit, and once the end has been reached,
    /// records in flight are awaited; it stops when none are left.
    pub fn next_action(&self) -> (r: LoopAction)
        requires
            self.valid(),
        ensures
            r == (if self.is_ending() {
                if self.flying() > 0 {
                    LoopAction::AwaitDelivery
                } else {
                    LoopAction::Finish
                }
            } else if self.flying() >= self.limit() {
                LoopAction::AwaitDelivery
            } else {
                LoopAction::Receive
            }),
    {
        if self.ending {
            if self.in_flight > 0 {
                LoopAction::AwaitDelivery
            } else {
                LoopAction::Finish
            }
        } else if self.in_flight >= self.max_in_flight {
            LoopAction::AwaitDelivery
        } else {
            LoopAction::Receive
        }
    }

    /// Takes note of a message. One at or behind the end ends the loop; any
    /// other is in flight from now on.
    pub fn on_message(&mut self, offset: i64) -> (r: MessageAction)
        requires
            old(self).valid(),
            !old(self).is_ending(),
            old(self).flying() < old(self).limit(),
        ensures
            final(self).valid(),
            final(self).limit() == old(self).limit(),
            final(self).start() == old(self).start(),
            final(self).end() == old(self).end(),
            r == (if old(self).end() is Some && offset >= old(self).end()->0 {
                MessageAction::Leave
            } else {
                MessageAction::Send
            }),
            final(self).is_ending() == (r == MessageAction::Leave),
            final(self).flying() == old(self).flying() + if r == MessageAction::Send {
                1nat
            } else {
                0nat
            },
    {
        if let Some(end) = self.end_offset {
            if offset >= end {
                self.ending = true;
                return MessageAction::Leave;
            }
        }
        self.in_flight = self.in_flight + 1;
        MessageAction::Send
    }

    /// Takes note of an error in place of a message. The end of the partition
    /// ends a loop that has an end, once its offset has been reached; in front of
    /// that offset it stops the transfer. A loop without an end has it shown. Any
    /// other error stops the transfer.
    pub fn on_receive_error(&mut self, error: ReceiveError) -> (r: Result<Option<String>, Failure>)
        requires
            old(self).valid(),
            !old(self).is_ending(),
        ensures
            final(self).valid(),
            final(self).limit() == old(self).limit(),
            final(self).start() == old(self).start(),
            final(self).end() == old(self).end(),
            final(self).flying() == old(self).flying(),
            failure::tells(r, receive_fault(error, old(self).start(), old(self).end())),
            error is Other ==> (r matches Err(failure) && failure@ == failure::failed(
                error_text(error),
            )),
            r is Ok && old(self).end() is Some ==> r == Ok::<Option<String>, Failure>(None),
            r is Ok && old(self).end() is None ==> (r matches Ok(Some(shown)) && shown@
                == error_text(error)),
            final(self).is_ending() == (r is Ok && old(self).end() is Some),
    {
        match error {
            ReceiveError::PartitionEof { partition, position } => {
                if let Some(end) = self.end_offset {
                    let reached = match position {
                        Some(position) => Some(position),
                        None => self.start_offset,
                    };
                    check_reached(partition, reached, end)?;
                    self.ending = true;
                    Ok(None)
                } else {
                    Ok(
                        Some(
                            text::join2(
                                "Partition EOF: ",
                                text::decimal_i64(partition as i64).as_str(),
                            ),
                        ),
                    )
                }
            },
            ReceiveError::Other(error) => Err(fail(error)),
        }
    }

    /// Takes note that the oldest record in flight has been delivered.
    pub fn on_delivery(&mut self)
        requires
            old(self).valid(),
            old(self).flying() > 0,
        ensures
            final(self).valid(),
            final(self).limit() == old(self).limit(),
            final(self).start() == old(self).start(),
            final(self).end() == old(self).end(),
            final(self).is_ending() == old(self).is_ending(),
            final(self).flying() == old(self).flying() - 1,
    {
        self.in_flight = self.in_flight - 1;
    }
}

/// An error's printed form.
pub open spec fn error_text(error: ReceiveError) -> Seq<char> {
    match error {
        ReceiveError::PartitionEof { partition, .. } => "Partition EOF: "@ + text::decimal(
            partition as int,
        ),
        ReceiveError::Other(error) => error@,
    }
}

/// The offset that reading has come to: the consumer's position, or where
/// reading starts while there is none.
pub open spec fn reached(start: Option<i64>, position: Option<i64>) -> Option<i64> {
    match position {
        Some(position) => Some(position),
        None => start,
    }
}

/// A partition must not run out in front of its captured end.
pub open spec fn short_fault(partition: i32, reached: Option<i64>, end: i64) -> Option<
    FailureView,
> {
    match reached {
        Some(offset) => if offset < end {
            Some(
                failure::failed(
                    "partition "@ + text::decimal(partition as int) + " ran out at offset "@
                        + text::decimal(offset as int) + " before its captured end offset "@
                        + text::decimal(end as int),
                ),
            )
        } else {
            None
        },
        None => Some(
            failure::failed(
                "partition "@ + text::decimal(partition as int)
                    + " ran out at an unknown offset before its captured end offset "@
                    + text::decimal(end as int),
            ),
        ),
    }
}

/// What stops a transfer in place of a message: a partition that runs out in
/// front of its captured end, or any other error.
pub open spec fn receive_fault(
    error: ReceiveError,
    start: Option<i64>,
    end: Option<i64>,
) -> Option<FailureView> {
    match error {
        ReceiveError::PartitionEof { partition, position } => match end {
            Some(end) => short_fault(partition, reached(start, position), end),
            None => None,
        },
        ReceiveError::Other(error) => Some(failure::failed(error@)),
    }
}

/// Checks that a partition has not run out in front of its captured end.
pub fn check_reached(partition: i32, reached: Option<i64>, end: i64) -> (r: Result<(), Failure>)
    ensures
        failure::tells(r, short_fault(partition, reached, end)),
{
    match reached {
        Some(offset) => if offset < end {
            let mut message = text::join5(
                "partition ",
                text::decimal_i64(partition as i64).as_str(),
                " ran out at offset ",
                text::decimal_i64(offset).as_str(),
                " before its captured end offset ",
            );
            message.append(text::decimal_i64(end).as_str());
            Err(fail(message))
        } else {
            Ok(())
        },
        None => {
            let mut message = text::join3(
                "partition ",
                text::decimal_i64(partition as i64).as_str(),
                " ran out at an unknown offset before its captured end offset ",
            );
            message.append(text::decimal_i64(end).as_str());
            Err(fail(message))
        },
    }
}

/// A partition that has run out in front of its captured end never ends its
/// loop quietly: the transfer stops with a failure.
pub proof fn law_short_reads_stop_the_transfer(
    partition: i32,
    position: Option<i64>,
    start: Option<i64>,
    end: i64,
)
    requires
        reached(start, position) matches Some(offset) ==> offset < end,
    ensures
        receive_fault(
            ReceiveError::PartitionEof { partition, position },
            start,
            Some(end),
        ) is Some,
{
}

/// What is said of a consumer's error on a partition.
pub open spec fn receive_text(plan: TransferPlan, partition: i32, error: Seq<char>) -> Seq<char> {
    "consumer error on source "@ + plan.source.instance@ + " partition "@ + text::decimal(
        partition as int,
    ) + ": "@ + error
}

/// Shows a consumer's error on its partition's line, and hands back what it
/// shows.
pub fn show_receive_error(
    status: &mut StatusBoard,
    plan: &TransferPlan,
    partition: i32,
    error: &str,
) -> (r: String)
    ensures
        r@ == receive_text(*plan, partition, error@),
        final(status)@ == status::with_error(
            old(status)@,
            plan.destination_topic@,
            partition,
            receive_text(*plan, partition, error@),
        ),
{
    let mut message = text::join5(
        "consumer error on source ",
        plan.source.instance.as_str(),
        " partition ",
        text::decimal_i64(partition as i64).as_str(),
        ": ",
    );
    message.append(error);
    status.set_partition_error(plan.destination_topic.as_str(), partition, message.clone());
    message
}

/// Takes note of an error in place of a message, and shows it on its partition's
/// line. The end of a partition that has reached its own end is not shown; an
/// error that stops the transfer is handed back as it is shown.
pub fn handle_receive_error(
    progress: &mut PartitionLoop,
    plan: &TransferPlan,
    partition: i32,
    error: ReceiveError,
    status: &mut StatusBoard,
) -> (r: Result<(), Failure>)
    requires
        old(progress).valid(),
        !old(progress).is_ending(),
    ensures
        final(progress).valid(),
        final(progress).limit() == old(progress).limit(),
        final(progress).start() == old(progress).start(),
        final(progress).end() == old(progress).end(),
        final(progress).flying() == old(progress).flying(),
        final(progress).is_ending() == (r is Ok && old(progress).end() is Some),
        failure::tells(
            r,
            match receive_fault(error, old(progress).start(), old(progress).end()) {
                Some(fault) => Some(
                    failure::failed(receive_text(*plan, partition, fault.message)),
                ),
                None => None,
            },
        ),
        final(status)@ == (match receive_fault(error, old(progress).start(), old(progress).end()) {
            Some(fault) => status::with_error(
                old(status)@,
                plan.destination_topic@,
                partition,
                receive_text(*plan, partition, fault.message),
            ),
            None => if old(progress).end() is Some {
                old(status)@
            } else {
                status::with_error(
                    old(status)@,
                    plan.destination_topic@,
                    partition,
                    receive_text(*plan, partition, error_text(error)),
                )
            },
        }),
{
    match progress.on_receive_error(error) {
        Ok(None) => Ok(()),
        Ok(Some(shown)) => {
            show_receive_error(status, plan, partition, shown.as_str());
            Ok(())
        },
        Err(failure) => Err(
            fail(show_receive_error(status, plan, partition, failure.message.as_str())),
        ),
    }
}

/// What is said of a record that could not be delivered.
pub open spec fn produce_text(plan: TransferPlan, result: DeliveryResult) -> Seq<char> {
    "produce error from source "@ + plan.source.instance@ + ":"@ + result.source_topic@
        + " to destination "@ + result.destination_topic@ + ": "@ + result.produce_result->Err_0@
}

/// The clone of a destination topic with a partition's next offset recorded.
pub open spec fn advanced(
    state: OffsetState,
    topic: Seq<char>,
    plan: TransferPlan,
    partition: i32,
    next_offset: i64,
) -> CloneView {
    match state.clone_of(topic) {
        Some(clone) => CloneView {
            source: clone.source,
            next_offsets: clone.next_offsets.insert(partition, next_offset),
        },
        None => CloneView {
            source: topics::reference_text(plan.source@),
            next_offsets: Map::empty().insert(partition, next_offset),
        },
    }
}

/// Takes note of what became of a record. The offset behind a delivered record
/// of a clone is recorded; that of any delivered record is shown. A record that
/// could not be delivered is shown, and ends the transfer. Says whether the
/// ledger has changed.
pub fn handle_delivery_result(
    plan: &TransferPlan,
    result: DeliveryResult,
    state: &mut OffsetState,
    status: &mut StatusBoard,
) -> (r: Result<bool, Failure>)
    ensures
        failure::tells(
            r,
            match result.produce_result {
                Ok(_) => None,
                Err(_) => Some(failure::failed(produce_text(*plan, result))),
            },
        ),
        r matches Ok(changed) ==> changed == (plan.kind == TransferKind::Clone),
        r == Ok::<bool, Failure>(true) ==> {
            &&& final(state).same_but(*old(state), result.destination_topic@)
            &&& final(state).marker_of(result.destination_topic@) == old(state).marker_of(
                result.destination_topic@,
            )
            &&& final(state).clone_of(result.destination_topic@) == Some(
                advanced(
                    *old(state),
                    result.destination_topic@,
                    *plan,
                    result.partition,
                    result.next_offset,
                ),
            )
        },
        r != Ok::<bool, Failure>(true) ==> *final(state) == *old(state),
        final(status)@ == (match result.produce_result {
            Ok(_) => status::with_offset(
                old(status)@,
                result.destination_topic@,
                result.partition,
                result.next_offset,
            ),
            Err(_) => status::with_error(
                old(status)@,
                plan.destination_topic@,
                result.partition,
                produce_text(*plan, result),
            ),
        }),
{
    match result.produce_result {
        Ok(_) => {
            let clone = plan.kind == TransferKind::Clone;
            if clone {
                state.update_next_offset(
                    result.destination_topic.as_str(),
                    &plan.source,
                    result.partition,
                    result.next_offset,
                );
            }
            status.update_partition_offset(
                result.destination_topic.as_str(),
                result.partition,
                result.next_offset,
            );
            Ok(clone)
        },
        Err(error) => {
            let mut detail = text::join7(
                "produce error from source ",
                plan.source.instance.as_str(),
                ":",
                result.source_topic.as_str(),
                " to destination ",
                result.destination_topic.as_str(),
                ": ",
            );
            detail.append(error.as_str());
            status.set_partition_error(
                plan.destination_topic.as_str(),
                result.partition,
                detail.clone(),
            );
            Err(fail(detail))
        },
    }
}

/// The recorded offset of a partition falls short of its end.
pub open spec fn falls_short(state: OffsetState, topic: Seq<char>, partition: i32, end: i64) -> bool {
    match state.offset_of(topic, partition) {
        Some(offset) => offset < end,
        None => i64::MIN < end,
    }
}

/// Records and shows the end of a partition, once every record in front of it
/// has been delivered, unless as much is recorded already. Says whether the
/// ledger has changed.
pub fn finish_partition(
    plan: &TransferPlan,
    partition: i32,
    end_offset: Option<i64>,
    state: &mut OffsetState,
    status: &mut StatusBoard,
) -> (r: bool)
    ensures
        r == (end_offset is Some && falls_short(
            *old(state),
            plan.destination_topic@,
            partition,
            end_offset->0,
        )),
        r ==> {
            &&& final(state).same_but(*old(state), plan.destination_topic@)
            &&& final(state).marker_of(plan.destination_topic@) == old(state).marker_of(
                plan.destination_topic@,
            )
            &&& final(state).clone_of(plan.destination_topic@) == Some(
                advanced(
                    *old(state),
                    plan.destination_topic@,
                    *plan,
                    partition,
                    end_offset->0,
                ),
            )
        },
        !r ==> *final(state) == *old(state),
        final(status)@ == (if r {
            status::with_offset(
                old(status)@,
                plan.destination_topic@,
                partition,
                end_offset->0,
            )
        } else {
            old(status)@
        }),
{
    let end = match end_offset {
        Some(end) => end,
        None => {
            return false;
        },
    };
    let current = match state.next_offset(plan.destination_topic.as_str(), partition) {
        Some(offset) => offset,
        None => i64::MIN,
    };
    if current >= end {
        return false;
    }
    state.update_next_offset(plan.destination_topic.as_str(), &plan.source, partition, end);
    status.update_partition_offset(plan.destination_topic.as_str(), partition, end);
    true
}

/// Once a partition is finished, its recorded offset does not fall short of its
/// end.
pub proof fn law_finished_partitions_reach_their_end(
    before: OffsetState,
    after: OffsetState,
    plan: TransferPlan,
    partition: i32,
    end: i64,
)
    requires
        i64::MIN < end,
        falls_short(before, plan.destination_topic@, partition, end) ==> after.clone_of(
            plan.destination_topic@,
        ) == Some(advanced(before, plan.destination_topic@, plan, partition, end)),
        !falls_short(before, plan.destination_topic@, partition, end) ==> after == before,
    ensures
        after.offset_of(plan.destination_topic@, partition) is Some,
        after.offset_of(plan.destination_topic@, partition)->0 >= end,
{
}

/// Shows a message that came outside its partition's queue: on the line of its
/// partition where its topic is transferred, on the source's lines otherwise.
pub fn show_stray_message(
    status: &mut StatusBoard,
    transfer_map: &TextMap<TransferPlan>,
    source_name: &str,
    topic: &str,
    partition: i32,
)
    ensures
        final(status)@ == (if transfer_map@.contains_key(topic@) {
            let plan = transfer_map@[topic@];
            status::with_error(
                old(status)@,
                plan.destination_topic@,
                partition,
                "unexpected message on shared consumer queue for source "@ + plan.source.instance@
                    + ":"@ + topic@ + " partition "@ + text::decimal(partition as int),
            )
        } else {
            status::with_source_errors(
                old(status)@,
                source_name@,
                "received message for unconfigured source topic "@ + topic@ + " on source "@
                    + source_name@,
            )
        }),
{
    match transfer_map.get(topic) {
        Some(plan) => {
            let mut message = text::join5(
                "unexpected message on shared consumer queue for source ",
                plan.source.instance.as_str(),
                ":",
                topic,
                " partition ",
            );
            message.append(text::decimal_i64(partition as i64).as_str());
            status.set_partition_error(plan.destination_topic.as_str(), partition, message);
        },
        None => {
            let mut message = text::join3(
                "received message for unconfigured source topic ",
                topic,
                " on source ",
            );
            message.append(source_name);
            status.set_source_error(source_name, message.as_str());
        },
    }
}

/// Shows a consumer's error on the source's lines.
pub fn show_source_error(status: &mut StatusBoard, source_name: &str, error: &str)
    ensures
        final(status)@ == status::with_source_errors(
            old(status)@,
            source_name@,
            "consumer error on source "@ + source_name@ + ": "@ + error@,
        ),
{
    let mut message = text::join3("consumer error on source ", source_name, ": ");
    message.append(error);
    status.set_source_error(source_name, message.as_str());
}

/// A transfer stops on every error but the end of a partition, and on that exactly
/// where the partition has a captured end and has not been read up to it.
pub proof fn law_transfers_stop_on_failures(
    error: ReceiveError,
    start: Option<i64>,
    end: Option<i64>,
)
    ensures
        receive_fault(error, start, end) is None <==> {
            &&& error is PartitionEof
            &&& end matches Some(end) ==> (match error->position {
                Some(position) => position >= end,
                None => start matches Some(start) && start >= end,
            })
        },
{
}

/// A clone's recorded progress is the offset behind the record that has been
/// delivered, and the progress of its other partitions and its source stay.
pub proof fn law_progress_advances_one_partition(
    state: OffsetState,
    topic: Seq<char>,
    plan: TransferPlan,
    partition: i32,
    next_offset: i64,
    other: i32,
)
    ensures
        ({
            let after = advanced(state, topic, plan, partition, next_offset);
            &&& after.next_offsets.contains_key(partition)
            &&& after.next_offsets[partition] == next_offset
            &&& other != partition ==> (match state.offset_of(topic, other) {
                Some(offset) => after.next_offsets.contains_key(other)
                    && after.next_offsets[other] == offset,
                None => !after.next_offsets.contains_key(other),
            })
            &&& after.source == (match state.clone_of(topic) {
                Some(clone) => clone.source,
                None => plan.source.instance@ + ":"@ + plan.source.topic@,
            })
        }),
{
}

/// A recorded offset falls short of an end exactly where it is smaller, and where
/// nothing is recorded of a partition that has an offset in front of its end.
pub proof fn law_short_progress_is_told(
    state: OffsetState,
    topic: Seq<char>,
    partition: i32,
    end: i64,
)
    ensures
        state.offset_of(topic, partition) matches Some(offset) ==> (falls_short(
            state,
            topic,
            partition,
            end,
        ) <==> offset < end),
        state.offset_of(topic, partition) is None ==> (falls_short(state, topic, partition, end)
            <==> end > i64::MIN),
{
}

} // verus!
