//! Restoring an archive into a destination topic.

use crate::archive;
use crate::archive::{ArchiveEvent, ArchiveReader, ArchiveRecord};
use crate::compression;
use crate::failure;
use crate::failure::{fail, Failure};
use crate::layout;
use crate::layout::{EventView, ReaderState, RecordView, Step};
use crate::records::{restore_record, OutgoingRecord};
use crate::text;
use crate::wire::{ArchiveError, Parsed};
use vstd::prelude::*;

verus! {

/// How many records of a partition may be in flight.
pub const MAX_IN_FLIGHT_PER_PARTITION: usize = 1024;

/// What a restore does with what stands next in its archive.
#[derive(Debug)]
pub enum RestoreStep {
    /// Go on in the archive.
    Next,
    /// Send a record to a partition.
    Send(i32, ArchiveRecord),
    /// Stop: the archive has been restored.
    Finished,
}

/// How far a restore has come: the partition it is inside, how many records are
/// in flight, and whether all of them have to be delivered first.
#[derive(Debug)]
pub struct RestoreProgress {
    partition: Option<i32>,
    in_flight: usize,
    draining: bool,
}

impl RestoreProgress {
    /// The partition that the restore is inside.
    pub closed spec fn inside(&self) -> Option<i32> {
        self.partition
    }

    /// How many records are in flight.
    pub closed spec fn flying(&self) -> nat {
        self.in_flight as nat
    }

    /// Whether all records in flight have to be delivered before going on.
    pub closed spec fn is_draining(&self) -> bool {
        self.draining
    }

    /// What holds of every restore: no more records are in flight than may be.
    pub closed spec fn valid(&self) -> bool {
        &&& self.in_flight <= MAX_IN_FLIGHT_PER_PARTITION
        &&& self.draining ==> self.in_flight > 0
    }

    /// Whether a delivery has to be awaited before going on.
    pub open spec fn waiting(&self) -> bool {
        self.is_draining() || self.flying() >= MAX_IN_FLIGHT_PER_PARTITION
    }

    /// No more records are in flight than may be.
    pub proof fn law_flight_is_limited(&self)
        requires
            self.valid(),
        ensures
            self.flying() <= MAX_IN_FLIGHT_PER_PARTITION,
    {
    }

    /// The start of a restore.
    pub fn new() -> (r: RestoreProgress)
        ensures
            r.valid(),
            r.inside() is None,
            r.flying() == 0,
            !r.is_draining(),
    {
        RestoreProgress { partition: None, in_flight: 0, draining: false }
    }

    /// Whether a delivery has to be awaited before going on.
    pub fn must_wait(&self) -> (r: bool)
        requires
            self.valid(),
        ensures
            r == self.waiting(),
            r == (self.is_draining() || self.flying() >= 1024),
            r ==> self.flying() > 0,
    {
        self.draining || self.in_flight >= MAX_IN_FLIGHT_PER_PARTITION
    }

    /// Takes note that the oldest record in flight has been delivered.
    pub fn on_delivery(&mut self)
        requires
            old(self).valid(),
            old(self).flying() > 0,
        ensures
            final(self).valid(),
            final(self).inside() == old(self).inside(),
            final(self).flying() == old(self).flying() - 1,
            final(self).is_draining() == (old(self).is_draining() && old(self).flying() > 1),
    {
        self.in_flight = self.in_flight - 1;
        if self.in_flight == 0 {
            self.draining = false;
        }
    }

    /// Takes in what stands next in the archive. Records are sent to the
    /// partition they stand in, and at the end of a partition all of them have
    /// to be delivered before going on.
    pub fn on_event(&mut self, event: Option<ArchiveEvent>) -> (r: Result<RestoreStep, Failure>)
        requires
            old(self).valid(),
            !old(self).waiting(),
        ensures
            final(self).valid(),
            match event {
                Some(ArchiveEvent::PartitionStart(id)) => {
                    &&& r == Ok::<RestoreStep, Failure>(RestoreStep::Next)
                    &&& final(self).inside() == Some(id)
                    &&& final(self).flying() == old(self).flying()
                    &&& !final(self).is_draining()
                },
                Some(ArchiveEvent::PartitionEnd(id)) => {
                    &&& final(self).inside() is None
                    &&& final(self).flying() == old(self).flying()
                    &&& if old(self).inside() == Some(id) {
                        &&& r == Ok::<RestoreStep, Failure>(RestoreStep::Next)
                        &&& final(self).is_draining() == (old(self).flying() > 0)
                    } else {
                        r matches Err(failure) && failure@ == failure::failed(
                            "archive partition boundary mismatch for partition "@ + text::decimal(
                                id as int,
                            ),
                        )
                    }
                },
                Some(ArchiveEvent::Record(record)) => match old(self).inside() {
                    Some(partition) => {
                        &&& r == Ok::<RestoreStep, Failure>(RestoreStep::Send(partition, record))
                        &&& final(self).inside() == Some(partition)
                        &&& final(self).flying() == old(self).flying() + 1
                        &&& !final(self).is_draining()
                    },
                    None => {
                        &&& r matches Err(failure) && failure@ == failure::failed(
                            "archive record appeared outside a partition"@,
                        )
                        &&& *final(self) == *old(self)
                    },
                },
                None => {
                    &&& *final(self) == *old(self)
                    &&& if old(self).inside() is Some {
                        r matches Err(failure) && failure@ == failure::failed(
                            "archive ended inside a partition"@,
                        )
                    } else {
                        r == Ok::<RestoreStep, Failure>(RestoreStep::Finished)
                    }
                },
            },
    {
        match event {
            Some(ArchiveEvent::PartitionStart(id)) => {
                self.partition = Some(id);
                Ok(RestoreStep::Next)
            },
            Some(ArchiveEvent::PartitionEnd(id)) => {
                let matching = match self.partition {
                    Some(partition) => partition == id,
                    None => false,
                };
                self.partition = None;
                if !matching {
                    return Err(
                        fail(
                            text::join2(
                                "archive partition boundary mismatch for partition ",
                                text::decimal_i64(id as i64).as_str(),
                            ),
                        ),
                    );
                }
                self.draining = self.in_flight > 0;
                Ok(RestoreStep::Next)
            },
            Some(ArchiveEvent::Record(record)) => match self.partition {
                Some(partition) => {
                    self.in_flight = self.in_flight + 1;
                    Ok(RestoreStep::Send(partition, record))
                },
                None => Err(fail("archive record appeared outside a partition".to_owned())),
            },
            None => if self.partition.is_some() {
                Err(fail("archive ended inside a partition".to_owned()))
            } else {
                Ok(RestoreStep::Finished)
            },
        }
    }
}

/// Why a restore failed.
#[derive(Debug)]
pub enum RestoreError {
    Archive(ArchiveError),
    Failed(Failure),
}

/// What a restore does next.
#[derive(Debug)]
pub enum RestoreAction {
    /// Wait for the oldest record in flight to be delivered.
    AwaitDelivery,
    /// Send a record.
    Send(OutgoingRecord),
    /// Go on in the archive.
    Next,
    /// Stop: the archive has been restored.
    Finished,
}

/// The fingerprint of an archive.
pub open spec fn fingerprint_of(archive: Seq<u8>) -> Seq<char> {
    text::hex(archive::sha256(archive))
}

/// What is said of an archive that is not the one that was planned.
pub open spec fn changed_text(found: Seq<char>, planned: Seq<char>) -> Seq<char> {
    "restore archive changed: its fingerprint is "@ + found + " but was "@ + planned
}

/// A restore of an archive into a destination topic.
pub struct RestoreSession {
    topic: String,
    reader: ArchiveReader,
    progress: RestoreProgress,
}

impl RestoreSession {
    /// The topic that is filled.
    pub closed spec fn topic(&self) -> Seq<char> {
        self.topic@
    }

    /// Where the restore stands in an archive whose compressed part decodes
    /// without a fault.
    pub closed spec fn state(&self) -> Option<ReaderState> {
        self.reader.state()
    }

    /// The partition that the restore is inside.
    pub closed spec fn inside(&self) -> Option<i32> {
        self.progress.inside()
    }

    /// How many records are in flight.
    pub closed spec fn flying(&self) -> nat {
        self.progress.flying()
    }

    /// Whether a delivery has to be awaited before going on.
    pub closed spec fn waiting(&self) -> bool {
        self.progress.waiting()
    }

    /// Whether the end of the archive has been reached.
    pub closed spec fn is_finished(&self) -> bool {
        self.reader.is_finished()
    }

    /// What holds of every restore: it is inside the partition that its reader
    /// is inside, and outside every partition it goes on only when nothing is in
    /// flight.
    pub closed spec fn valid(&self) -> bool {
        &&& self.reader.valid()
        &&& self.progress.valid()
        &&& self.progress.inside() is None && self.progress.flying() > 0
            ==> self.progress.is_draining()
        &&& self.progress.inside() == if self.reader.is_open() {
            Some(self.reader.declared()[self.reader.done()])
        } else {
            None
        }
    }

    /// No more records are in flight than may be.
    pub proof fn lemma_valid(&self)
        requires
            self.valid(),
        ensures
            self.flying() <= MAX_IN_FLIGHT_PER_PARTITION,
            self.waiting() ==> self.flying() > 0,
    {
    }

    /// A restore comes to the end only of an archive whose compressed part
    /// decodes without a fault.
    pub proof fn law_only_sound_archives_are_restored(&self)
        requires
            self.valid(),
            self.is_finished(),
        ensures
            self.state() is Some,
    {
        self.reader.law_only_sound_archives_end();
    }

    /// Starts restoring an archive into a topic. An archive that is not the one
    /// with the planned fingerprint is refused.
    pub fn start(archive: &[u8], planned: &str, topic: &str) -> (r: Result<
        RestoreSession,
        RestoreError,
    >)
        ensures
            r matches Ok(session) ==> {
                &&& session.valid()
                &&& session.topic() == topic@
                &&& session.inside() is None
                &&& session.flying() == 0
                &&& !session.waiting()
                &&& !session.is_finished()
                &&& session.state() is Some == (layout::parse_preamble(
                    archive@,
                ) matches Parsed::Value(_, body) && compression::zstd_content(body) is Some)
            },
            fingerprint_of(archive@) != planned@ ==> (r matches Err(RestoreError::Failed(failure))
                && failure@ == failure::failed(changed_text(fingerprint_of(archive@), planned@))),
            fingerprint_of(archive@) == planned@ ==> !(r matches Err(RestoreError::Failed(_)))
                && match layout::parse_preamble(archive@) {
                Parsed::Fault(fault) => r == Err::<RestoreSession, RestoreError>(
                    RestoreError::Archive(ArchiveError::Fault(fault)),
                ),
                Parsed::Value(_, body) => compression::zstd_content(body) matches Some(content)
                    ==> match r {
                    Ok(session) => {
                        &&& session.state() is Some
                        &&& layout::parse_declaration(content) == Parsed::Value(
                            session.state()->0.partitions,
                            session.state()->0.rest,
                        )
                        &&& session.state()->0.done == 0
                        &&& !session.state()->0.open
                    },
                    Err(RestoreError::Archive(ArchiveError::Fault(fault))) => {
                        layout::parse_declaration(content) == Parsed::<Seq<i32>>::Fault(fault)
                    },
                    Err(_) => true,
                },
            },
    {
        let found = archive::fingerprint(archive);
        if !text::same(found.as_str(), planned) {
            let mut message = text::join3(
                "restore archive changed: its fingerprint is ",
                found.as_str(),
                " but was ",
            );
            message.append(planned);
            return Err(RestoreError::Failed(fail(message)));
        }
        match ArchiveReader::open(archive) {
            Ok(reader) => Ok(
                RestoreSession { topic: topic.to_owned(), reader, progress: RestoreProgress::new() },
            ),
            Err(error) => Err(RestoreError::Archive(error)),
        }
    }

    /// What the restore does next: it awaits a delivery where it has to, and
    /// otherwise takes in what stands next in the archive. It is finished only
    /// when every record that it has sent has been delivered.
    pub fn next_action(&mut self) -> (r: Result<RestoreAction, RestoreError>)
        requires
            old(self).valid(),
        ensures
            final(self).valid(),
            final(self).topic() == old(self).topic(),
            old(self).waiting() ==> r == Ok::<RestoreAction, RestoreError>(
                RestoreAction::AwaitDelivery,
            ) && *final(self) == *old(self),
            !old(self).waiting() ==> !(r matches Ok(RestoreAction::AwaitDelivery)),
            !(r matches Err(RestoreError::Failed(_))),
            !(r matches Ok(RestoreAction::Send(_))) ==> final(self).flying() == old(self).flying(),
            r matches Ok(RestoreAction::Finished) ==> {
                &&& final(self).is_finished()
                &&& final(self).inside() is None
                &&& final(self).flying() == 0
            },
            r matches Ok(RestoreAction::Finished) ==> old(self).state() is Some,
            r matches Ok(RestoreAction::Send(_)) ==> !final(self).is_finished(),
            r matches Ok(RestoreAction::Next) ==> !final(self).is_finished(),
            r is Ok ==> final(self).state() is Some == old(self).state() is Some,
            !old(self).waiting() && old(self).is_finished() ==> r matches Ok(
                RestoreAction::Finished,
            ),
            r matches Ok(RestoreAction::Send(record)) ==> {
                &&& record.topic@ == old(self).topic()
                &&& old(self).inside() == Some(record.partition)
                &&& final(self).inside() == old(self).inside()
                &&& final(self).flying() == old(self).flying() + 1
            },
            !old(self).waiting() && !old(self).is_finished() ==> (old(self).state() matches Some(state) ==> match r {
                Ok(RestoreAction::Send(record)) => layout::step(state) matches Step::Event(
                    EventView::Record(archived),
                    next,
                ) && record.carries() == archived && final(self).state() == Some(next),
                Ok(RestoreAction::Next) => layout::step(state) matches Step::Event(event, next)
                    && !(event is Record) && final(self).state() == Some(next) && final(self).inside() == (match event {
                    EventView::PartitionStart(id) => Some(id),
                    _ => None,
                }),
                Ok(RestoreAction::Finished) => layout::step(state) is End,
                Ok(RestoreAction::AwaitDelivery) => false,
                Err(RestoreError::Archive(ArchiveError::Fault(fault))) => layout::step(state)
                    == Step::Fault(fault),
                Err(_) => true,
            }),
    {
        if self.progress.must_wait() {
            return Ok(RestoreAction::AwaitDelivery);
        }
        let event = match self.reader.next_event() {
            Ok(event) => event,
            Err(error) => {
                return Err(RestoreError::Archive(error));
            },
        };
        match self.progress.on_event(event) {
            Ok(RestoreStep::Next) => Ok(RestoreAction::Next),
            Ok(RestoreStep::Send(partition, record)) => Ok(
                RestoreAction::Send(restore_record(self.topic.as_str(), partition, record)),
            ),
            Ok(RestoreStep::Finished) => Ok(RestoreAction::Finished),
            Err(failure) => Err(RestoreError::Failed(failure)),
        }
    }

    /// Takes note that the oldest record in flight has been delivered.
    pub fn on_delivery(&mut self)
        requires
            old(self).valid(),
            old(self).flying() > 0,
        ensures
            final(self).valid(),
            final(self).topic() == old(self).topic(),
            final(self).state() == old(self).state(),
            final(self).is_finished() == old(self).is_finished(),
            final(self).inside() == old(self).inside(),
            final(self).flying() == old(self).flying() - 1,
    {
        self.progress.on_delivery();
    }
}

/// The records that come of some events, each with the partition it is sent to,
/// for a restore that is inside the given partition.
pub open spec fn sent(events: Seq<EventView>, inside: Option<i32>) -> Seq<(i32, RecordView)>
    decreases events.len(),
{
    if events.len() == 0 {
        Seq::empty()
    } else {
        let later = events.drop_first();
        match events[0] {
            EventView::PartitionStart(partition) => sent(later, Some(partition)),
            EventView::PartitionEnd(_) => sent(later, None),
            EventView::Record(record) => seq![(inside->0, record)] + sent(later, inside),
        }
    }
}

/// Some records, each with its partition.
pub open spec fn in_partition(partition: i32, records: Seq<RecordView>) -> Seq<(i32, RecordView)> {
    records.map_values(|record: RecordView| (partition, record))
}

/// The records of all partitions, one partition after the other.
pub open spec fn in_partitions(partitions: Seq<i32>, blocks: Seq<Seq<RecordView>>) -> Seq<
    (i32, RecordView),
>
    decreases blocks.len(),
{
    if blocks.len() == 0 {
        Seq::empty()
    } else {
        in_partition(partitions[0], blocks[0]) + in_partitions(
            partitions.drop_first(),
            blocks.drop_first(),
        )
    }
}

proof fn lemma_records_sent(records: Seq<RecordView>, tail: Seq<EventView>, partition: i32)
    ensures
        sent(layout::record_events(records) + tail, Some(partition)) == in_partition(
            partition,
            records,
        ) + sent(tail, Some(partition)),
    decreases records.len(),
{
    let events = layout::record_events(records) + tail;
    if records.len() == 0 {
        assert(events =~= tail);
        assert(in_partition(partition, records) + sent(tail, Some(partition)) =~= sent(
            tail,
            Some(partition),
        ));
    } else {
        let later = records.drop_first();
        lemma_records_sent(later, tail, partition);
        assert(events[0] == EventView::Record(records[0]));
        assert(events.drop_first() =~= layout::record_events(later) + tail);
        assert(in_partition(partition, records) =~= seq![(partition, records[0])] + in_partition(
            partition,
            later,
        ));
        assert(sent(events, Some(partition)) =~= in_partition(partition, records) + sent(
            tail,
            Some(partition),
        ));
    }
}

/// Restoring an archive sends every record that it holds exactly once, to its
/// own partition, and the records of a partition in order.
pub proof fn law_every_record_is_restored(partitions: Seq<i32>, blocks: Seq<Seq<RecordView>>)
    requires
        partitions.len() == blocks.len(),
    ensures
        sent(layout::archive_events(partitions, blocks), None) == in_partitions(partitions, blocks),
    decreases blocks.len(),
{
    if blocks.len() > 0 {
        let later = layout::archive_events(partitions.drop_first(), blocks.drop_first());
        law_every_record_is_restored(partitions.drop_first(), blocks.drop_first());
        let partition = partitions[0];
        let tail = seq![EventView::PartitionEnd(partition)] + later;
        let inside = layout::record_events(blocks[0]) + tail;
        let events = layout::archive_events(partitions, blocks);
        assert(events =~= seq![EventView::PartitionStart(partition)] + inside);
        assert(events.drop_first() =~= inside);
        lemma_records_sent(blocks[0], tail, partition);
        assert(tail.drop_first() =~= later);
        assert(sent(tail, Some(partition)) == sent(later, None));
    }
}

/// The records that a partition gets of those that are sent, in order.
pub open spec fn arrived(sent: Seq<(i32, RecordView)>, partition: i32) -> Seq<RecordView>
    decreases sent.len(),
{
    if sent.len() == 0 {
        Seq::empty()
    } else {
        let earlier = arrived(sent.drop_last(), partition);
        if sent.last().0 == partition {
            earlier.push(sent.last().1)
        } else {
            earlier
        }
    }
}

proof fn lemma_arrived_both(
    first: Seq<(i32, RecordView)>,
    second: Seq<(i32, RecordView)>,
    partition: i32,
)
    ensures
        arrived(first + second, partition) == arrived(first, partition) + arrived(
            second,
            partition,
        ),
    decreases second.len(),
{
    if second.len() == 0 {
        assert(first + second =~= first);
        assert(arrived(first, partition) + arrived(second, partition) =~= arrived(
            first,
            partition,
        ));
    } else {
        lemma_arrived_both(first, second.drop_last(), partition);
        assert((first + second).drop_last() =~= first + second.drop_last());
        assert((first + second).last() == second.last());
        assert(arrived(first + second, partition) =~= arrived(first, partition) + arrived(
            second,
            partition,
        ));
    }
}

proof fn lemma_arrived_in_partition(records: Seq<RecordView>, sent_to: i32, partition: i32)
    ensures
        arrived(in_partition(sent_to, records), partition) == (if sent_to == partition {
            records
        } else {
            Seq::empty()
        }),
    decreases records.len(),
{
    let sent = in_partition(sent_to, records);
    if records.len() > 0 {
        lemma_arrived_in_partition(records.drop_last(), sent_to, partition);
        assert(sent.drop_last() =~= in_partition(sent_to, records.drop_last()));
        assert(sent.last() == (sent_to, records.last()));
        assert(records.drop_last().push(records.last()) =~= records);
    } else {
        assert(records =~= Seq::<RecordView>::empty());
    }
}

proof fn lemma_arrived_elsewhere(
    partitions: Seq<i32>,
    blocks: Seq<Seq<RecordView>>,
    partition: i32,
)
    requires
        partitions.len() == blocks.len(),
        forall|i: int| 0 <= i < partitions.len() ==> #[trigger] partitions[i] != partition,
    ensures
        arrived(in_partitions(partitions, blocks), partition) == Seq::<RecordView>::empty(),
    decreases blocks.len(),
{
    if blocks.len() > 0 {
        let rest = partitions.drop_first();
        assert forall|i: int| 0 <= i < rest.len() implies #[trigger] rest[i] != partition by {
            assert(rest[i] == partitions[i + 1]);
        }
        lemma_arrived_elsewhere(rest, blocks.drop_first(), partition);
        lemma_arrived_in_partition(blocks[0], partitions[0], partition);
        lemma_arrived_both(
            in_partition(partitions[0], blocks[0]),
            in_partitions(rest, blocks.drop_first()),
            partition,
        );
        assert(partitions[0] != partition);
    }
}

proof fn lemma_arrived_in_partitions(
    partitions: Seq<i32>,
    blocks: Seq<Seq<RecordView>>,
    at: int,
)
    requires
        partitions.len() == blocks.len(),
        partitions.no_duplicates(),
        0 <= at < partitions.len(),
    ensures
        arrived(in_partitions(partitions, blocks), partitions[at]) == blocks[at],
    decreases blocks.len(),
{
    let rest = partitions.drop_first();
    let later = blocks.drop_first();
    let partition = partitions[at];
    lemma_arrived_in_partition(blocks[0], partitions[0], partition);
    lemma_arrived_both(
        in_partition(partitions[0], blocks[0]),
        in_partitions(rest, later),
        partition,
    );
    if at == 0 {
        assert forall|i: int| 0 <= i < rest.len() implies #[trigger] rest[i] != partition by {
            assert(rest[i] == partitions[i + 1]);
        }
        lemma_arrived_elsewhere(rest, later, partition);
        assert(blocks[0] + Seq::<RecordView>::empty() =~= blocks[0]);
    } else {
        assert forall|i: int, j: int|
            0 <= i < rest.len() && 0 <= j < rest.len() && i != j implies rest[i] != rest[j] by {
            assert(rest[i] == partitions[i + 1]);
            assert(rest[j] == partitions[j + 1]);
        }
        lemma_arrived_in_partitions(rest, later, at - 1);
        assert(rest[at - 1] == partition);
        assert(later[at - 1] == blocks[at]);
        assert(partitions[0] != partition);
        assert(Seq::<RecordView>::empty() + blocks[at] =~= blocks[at]);
    }
}

/// An archive that is restored and dumped again comes out byte for byte as it
/// was: every partition gets the records that it had, and so their archive is
/// the same.
pub proof fn law_dump_restore_dump_is_identical(
    first: Seq<u8>,
    second: Seq<u8>,
    partitions: Seq<i32>,
    blocks: Seq<Seq<RecordView>>,
    again: Seq<Seq<RecordView>>,
)
    requires
        layout::archive_of(first, partitions, blocks),
        layout::contiguous(partitions),
        blocks.len() == partitions.len(),
        layout::blocks_fit(blocks),
        again.len() == partitions.len(),
        forall|i: int|
            0 <= i < again.len() ==> #[trigger] again[i] == arrived(
                sent(
                    layout::events(
                        (ReaderState {
                            partitions,
                            done: 0,
                            open: false,
                            rest: layout::parse_declaration(
                                compression::zstd_content(first.skip(10))->0,
                            )->Value_1,
                        }),
                    ).0,
                    None,
                ),
                partitions[i],
            ),
        layout::archive_of(second, partitions, again),
    ensures
        again == blocks,
        first == second,
{
    layout::law_archive_reads_back(first, partitions, blocks);
    law_every_record_is_restored(partitions, blocks);
    assert forall|i: int| 0 <= i < again.len() implies again[i] == blocks[i] by {
        lemma_arrived_in_partitions(partitions, blocks, i);
    }
    assert(again =~= blocks);
    layout::law_archives_are_deterministic(first, second, partitions, blocks);
}

proof fn lemma_arrived_are_picked(
    sent: Seq<(i32, RecordView)>,
    partition: i32,
    pick: spec_fn((i32, RecordView)) -> Option<RecordView>,
)
    requires
        forall|item: (i32, RecordView)| #[trigger]
            pick(item) == (if item.0 == partition {
                Some(item.1)
            } else {
                None
            }),
    ensures
        arrived(sent, partition) == sent.filter_map(pick),
    decreases sent.len(),
{
    if sent.len() > 0 {
        lemma_arrived_are_picked(sent.drop_last(), partition, pick);
        assert(arrived(sent, partition) =~= sent.filter_map(pick));
    }
}

/// Restoring an archive gives each partition exactly the records that the archive
/// holds of it, each once and in order, and sends nothing anywhere else.
pub proof fn law_each_partition_gets_its_records(
    partitions: Seq<i32>,
    blocks: Seq<Seq<RecordView>>,
    partition: i32,
)
    requires
        partitions.len() == blocks.len(),
        partitions.no_duplicates(),
    ensures
        ({
            let got = sent(layout::archive_events(partitions, blocks), None).filter_map(
                |item: (i32, RecordView)|
                    if item.0 == partition {
                        Some(item.1)
                    } else {
                        None
                    },
            );
            &&& forall|at: int|
                0 <= at < partitions.len() && #[trigger] partitions[at] == partition ==> got
                    == blocks[at]
            &&& (forall|at: int|
                0 <= at < partitions.len() ==> #[trigger] partitions[at] != partition) ==> got
                == Seq::<RecordView>::empty()
        }),
{
    let pick = |item: (i32, RecordView)|
        if item.0 == partition {
            Some(item.1)
        } else {
            None
        };
    law_every_record_is_restored(partitions, blocks);
    lemma_arrived_are_picked(in_partitions(partitions, blocks), partition, pick);
    assert forall|at: int|
        0 <= at < partitions.len() && #[trigger] partitions[at] == partition implies arrived(
        in_partitions(partitions, blocks),
        partition,
    ) == blocks[at] by {
        lemma_arrived_in_partitions(partitions, blocks, at);
    }
    if forall|at: int| 0 <= at < partitions.len() ==> #[trigger] partitions[at] != partition {
        lemma_arrived_elsewhere(partitions, blocks, partition);
    }
}

/// An archive's fingerprint is the SHA-256 digest of all its bytes, in hexadecimal.
pub proof fn law_fingerprints_are_of_all_bytes(archive: Seq<u8>)
    ensures
        fingerprint_of(archive) == text::hex(archive::sha256(archive)),
{
}

} // verus!
