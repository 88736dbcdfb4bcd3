//! Dumping a source topic into an archive.

use crate::archive::ArchiveWriter;
use crate::assignment;
use crate::config;
use crate::config::{validate_config, AppConfig};
use crate::failure;
use crate::failure::{fail, require_no_zero, Failure, FailureView};
use crate::layout;
use crate::layout::RecordView;
use crate::metadata;
use crate::metadata::{Metadata, MetadataPartition};
use crate::partition_list;
use crate::partition_list::EntryView;
use crate::partition_loop;
use crate::partition_loop::{check_reached, ReceiveError};
use crate::records::{archive_record_from_message, SourceMessage};
use crate::text;
use crate::topics;
use crate::topics::{parse_source_topic_ref, resolve_topics, SourceTopicRef};
use crate::transfers::{StartOffset, Watermarks};
use crate::wire::{ArchiveError, ArchiveFault};
use rdkafka::topic_partition_list::TopicPartitionList;
use vstd::prelude::*;
use vstd::utf8::*;

verus! {

/// Checks that an archive may be written: one that is there already is replaced
/// only where that is asked for.
pub fn check_output(exists: bool, force: bool, archive: &str) -> (r: Result<(), Failure>)
    ensures
        failure::tells(
            r,
            if exists && !force {
                Some(
                    failure::failed(
                        "output archive "@ + archive@
                            + " already exists; use --force to replace it"@,
                    ),
                )
            } else {
                None
            },
        ),
{
    if exists && !force {
        return Err(
            fail(
                text::join3(
                    "output archive ",
                    archive,
                    " already exists; use --force to replace it",
                ),
            ),
        );
    }
    Ok(())
}

/// What keeps a source topic from being dumped: a fault of the configuration, of
/// its topics, or of the reference to the source topic.
pub open spec fn dump_fault(config: AppConfig, source: Seq<char>) -> Option<FailureView> {
    failure::first(
        config::config_fault(config),
        failure::first(
            topics::definitions_fault(config, config.topics@.len() as int),
            if topics::reference_fault(source) is Some {
                Some(
                    FailureView {
                        message: "invalid dump source reference "@ + source,
                        cause: topics::reference_fault(source),
                    },
                )
            } else if !config.sources@.contains_key(topics::reference_of(source).instance) {
                Some(
                    failure::failed(
                        "dump references unknown source "@ + topics::reference_of(
                            source,
                        ).instance,
                    ),
                )
            } else {
                None
            },
        ),
    )
}

/// Works out which source topic is dumped.
pub fn prepare_dump(config: &AppConfig, directory: Option<&str>, source: &str) -> (r: Result<
    SourceTopicRef,
    Failure,
>)
    ensures
        failure::tells(r, dump_fault(*config, source@)),
        r matches Ok(reference) ==> reference@ == topics::reference_of(source@),
{
    validate_config(config)?;
    resolve_topics(config, directory)?;
    let reference = match parse_source_topic_ref(source) {
        Ok(reference) => reference,
        Err(failure) => {
            return Err(
                Failure {
                    message: text::join2("invalid dump source reference ", source),
                    cause: Some(failure.message),
                },
            );
        },
    };
    if !config.sources.contains_key(reference.instance.as_str()) {
        return Err(
            fail(text::join2("dump references unknown source ", reference.instance.as_str())),
        );
    }
    Ok(reference)
}

/// What is wrong with a source topic that is to be dumped.
pub open spec fn dumped_topic_fault(metadata: Metadata, topic: Seq<char>) -> Option<FailureView> {
    match metadata::topic_of(metadata, topic) {
        None => Some(failure::failed("source topic "@ + topic + " not found"@)),
        Some(found) => match found.error {
            Some(error) => Some(
                failure::failed("source topic "@ + topic + " metadata error: "@ + error@),
            ),
            None => None,
        },
    }
}

/// The numbers of some partitions.
pub open spec fn ids(partitions: Seq<MetadataPartition>) -> Seq<i32> {
    partitions.map_values(|partition: MetadataPartition| partition.id)
}

/// Numbers in increasing order.
pub open spec fn sorted(numbers: Seq<i32>) -> bool {
    forall|i: int, j: int| 0 <= i <= j < numbers.len() ==> numbers[i] <= numbers[j]
}

proof fn lemma_insert_sorted(numbers: Seq<i32>, at: int, number: i32)
    requires
        sorted(numbers),
        0 <= at <= numbers.len(),
        forall|i: int| 0 <= i < at ==> numbers[i] <= number,
        forall|i: int| at <= i < numbers.len() ==> number < numbers[i],
    ensures
        sorted(numbers.insert(at, number)),
        numbers.insert(at, number).to_multiset() == numbers.to_multiset().insert(number),
{
    broadcast use vstd::seq_lib::group_to_multiset_ensures;

    let more = numbers.insert(at, number);
    assert forall|i: int, j: int| 0 <= i <= j < more.len() implies more[i] <= more[j] by {
        let old_i = if i < at {
            i
        } else {
            i - 1
        };
        let old_j = if j < at {
            j
        } else {
            j - 1
        };
        if i != at && j != at {
            assert(more[i] == numbers[old_i]);
            assert(more[j] == numbers[old_j]);
        }
    }
}

fn insert_sorted(numbers: &mut Vec<i32>, number: i32)
    requires
        sorted(old(numbers)@),
    ensures
        sorted(final(numbers)@),
        final(numbers)@.to_multiset() == old(numbers)@.to_multiset().insert(number),
{
    let mut at: usize = 0;
    while at < numbers.len() && numbers[at] <= number
        invariant
            at <= numbers@.len(),
            *numbers == *old(numbers),
            forall|i: int| 0 <= i < at ==> numbers@[i] <= number,
        decreases numbers@.len() - at,
    {
        at = at + 1;
    }
    proof {
        assert forall|i: int| at <= i < numbers@.len() implies number < numbers@[i] by {
            assert(numbers@[at as int] <= numbers@[i]);
        }
        lemma_insert_sorted(numbers@, at as int, number);
    }
    numbers.insert(at, number);
}

/// The partitions of a source topic that is to be dumped, in increasing order.
pub fn dump_partitions(metadata: &Metadata, topic: &str) -> (r: Result<Vec<i32>, Failure>)
    ensures
        failure::tells(r, dumped_topic_fault(*metadata, topic@)),
        r matches Ok(partitions) ==> {
            let found = metadata::topic_of(*metadata, topic@)->0;
            &&& sorted(partitions@)
            &&& partitions@.to_multiset() == ids(found.partitions@).to_multiset()
        },
{
    let found = match metadata.find(topic) {
        Some(found) => found,
        None => {
            return Err(fail(text::join3("source topic ", topic, " not found")));
        },
    };
    if let Some(error) = &found.error {
        let mut message = text::join3("source topic ", topic, " metadata error: ");
        message.append(error.as_str());
        return Err(fail(message));
    }
    let ghost all = ids(found.partitions@);
    let mut partitions: Vec<i32> = Vec::new();
    let mut i: usize = 0;
    assert(all.take(0) =~= Seq::<i32>::empty());
    assert(partitions@ =~= Seq::<i32>::empty());
    while i < found.partitions.len()
        invariant
            i <= found.partitions@.len(),
            all == ids(found.partitions@),
            sorted(partitions@),
            partitions@.to_multiset() == all.take(i as int).to_multiset(),
        decreases found.partitions@.len() - i,
    {
        let id: i32 = found.partitions[i].id;
        insert_sorted(&mut partitions, id);
        assert(all.take(i + 1).to_multiset() == all.take(i as int).to_multiset().insert(id)) by {
            broadcast use vstd::seq_lib::group_to_multiset_ensures;

            assert(all.take(i + 1) =~= all.take(i as int).push(id));
        }
        i = i + 1;
    }
    assert(all.take(i as int) =~= all);
    Ok(partitions)
}

/// Why a dump failed.
#[derive(Debug)]
pub enum DumpError {
    Archive(ArchiveError),
    Failed(Failure),
}

/// What a dump does next.
#[derive(Debug, Clone, Copy, PartialEq, Eq, Structural)]
pub enum DumpStep {
    /// Read a partition from an offset on.
    Read { partition: i32, from: i64 },
    /// Go on to the next partition.
    Next,
    /// Finish the archive.
    Finish,
}

/// What a dump does once it has taken in what came.
#[derive(Debug, Clone, Copy, PartialEq, Eq, Structural)]
pub enum DumpProgress {
    /// Read on.
    More,
    /// The partition has been read to its end.
    PartitionDone,
}

/// The position of the watermarks of a partition, or the number of watermarks.
pub open spec fn mark_position(marks: Seq<Watermarks>, partition: i32) -> int
    decreases marks.len(),
{
    if marks.len() == 0 || marks[0].partition == partition {
        0
    } else {
        1 + mark_position(marks.drop_first(), partition)
    }
}

/// The first watermarks of a partition.
pub open spec fn marks_of(marks: Seq<Watermarks>, partition: i32) -> Option<Watermarks> {
    let at = mark_position(marks, partition);
    if at < marks.len() {
        Some(marks[at])
    } else {
        None
    }
}

fn find_marks(marks: &Vec<Watermarks>, partition: i32) -> (r: Option<Watermarks>)
    ensures
        r == marks_of(marks@, partition),
{
    let mut i: usize = 0;
    assert(marks@.skip(0) == marks@);
    while i < marks.len()
        invariant
            i <= marks@.len(),
            mark_position(marks@, partition) == i + mark_position(marks@.skip(i as int), partition),
        decreases marks@.len() - i,
    {
        if marks[i].partition == partition {
            return Some(marks[i]);
        }
        assert(marks@.skip(i as int).drop_first() == marks@.skip(i + 1));
        i = i + 1;
    }
    None
}

/// A dump of a topic's partitions, each up to the high watermark that it had
/// when the dump started.
pub struct DumpSession {
    topic: String,
    group_id: String,
    watermarks: Vec<Watermarks>,
    writer: ArchiveWriter,
    count: usize,
    next: usize,
    reading: Option<Watermarks>,
}

impl DumpSession {
    /// The partitions that are dumped.
    pub closed spec fn partitions(&self) -> Seq<i32> {
        self.writer.declared()
    }

    /// The watermarks that the partitions had.
    pub closed spec fn watermarks(&self) -> Seq<Watermarks> {
        self.watermarks@
    }

    /// The topic that is dumped.
    pub closed spec fn topic(&self) -> Seq<char> {
        self.topic@
    }

    /// The consumer group that reads it.
    pub closed spec fn group(&self) -> Seq<char> {
        self.group_id@
    }

    /// The records of each partition dumped so far.
    pub closed spec fn written(&self) -> Seq<Seq<RecordView>> {
        self.writer.written()
    }

    /// The partition that is being read, and its watermarks.
    pub closed spec fn reading(&self) -> Option<Watermarks> {
        self.reading
    }

    /// Whether the archive has taken in everything so far.
    pub closed spec fn intact(&self) -> bool {
        self.writer.intact()
    }

    /// What holds of every dump.
    pub closed spec fn valid(&self) -> bool {
        &&& self.writer.valid()
        &&& self.count == self.writer.declared().len()
        &&& self.reading is Some ==> self.writer.is_open()
        &&& !self.writer.is_open() ==> self.next == self.writer.written().len()
        &&& self.writer.is_open() ==> self.next + 1 == self.writer.written().len()
        &&& self.reading is Some ==> self.reading->0.partition == self.next
        &&& self.next <= self.count
    }

    /// What a caller may know of a dump.
    pub proof fn lemma_valid(&self)
        requires
            self.valid(),
        ensures
            layout::contiguous(self.partitions()),
            layout::blocks_fit(self.written()),
            self.written().len() <= self.partitions().len(),
            self.reading() is Some ==> self.written().len() > 0 && self.reading()->0.partition
                == self.written().len() - 1,
    {
        self.writer.lemma_valid();
    }

    /// Starts a dump.
    pub fn start(
        topic: &str,
        group_id: &str,
        partitions: &[i32],
        watermarks: Vec<Watermarks>,
    ) -> (r: Result<DumpSession, DumpError>)
        ensures
            match r {
                Ok(session) => {
                    &&& session.valid()
                    &&& session.intact()
                    &&& session.topic() == topic@
                    &&& session.group() == group_id@
                    &&& session.partitions() == partitions@
                    &&& session.watermarks() == watermarks@
                    &&& session.written() == Seq::<Seq<RecordView>>::empty()
                    &&& session.reading() is None
                    &&& session.settled()
                    &&& layout::partitions_fault(partitions@) is None
                },
                Err(DumpError::Archive(ArchiveError::Fault(fault))) => layout::partitions_fault(
                    partitions@,
                ) == Some(fault),
                Err(DumpError::Archive(ArchiveError::Io(_))) => true,
                Err(DumpError::Failed(_)) => false,
            },
    {
        match ArchiveWriter::create(partitions) {
            Ok(writer) => Ok(
                DumpSession {
                    topic: topic.to_owned(),
                    group_id: group_id.to_owned(),
                    watermarks,
                    writer,
                    count: partitions.len(),
                    next: 0,
                    reading: None,
                },
            ),
            Err(error) => Err(DumpError::Archive(error)),
        }
    }

    /// Whether no partition is open.
    pub closed spec fn settled(&self) -> bool {
        !self.writer.is_open()
    }

    /// Goes on to the next partition: begins it, and has it read unless its
    /// watermarks show that it is empty.
    pub fn next_step(&mut self) -> (r: Result<DumpStep, DumpError>)
        requires
            old(self).valid(),
            old(self).settled(),
        ensures
            final(self).valid(),
            final(self).topic() == old(self).topic(),
            final(self).group() == old(self).group(),
            final(self).partitions() == old(self).partitions(),
            final(self).watermarks() == old(self).watermarks(),
            ({
                let at = old(self).written().len();
                let marks = marks_of(old(self).watermarks(), at as i32);
                if at == old(self).partitions().len() {
                    r == Ok::<DumpStep, DumpError>(DumpStep::Finish) && *final(self) == *old(self)
                } else {
                    &&& final(self).written() == old(self).written().push(Seq::empty())
                    &&& match marks {
                        None => r matches Err(DumpError::Failed(failure)) && failure@
                            == failure::failed(
                            "missing captured watermarks for partition "@ + text::decimal(
                                at as int,
                            ),
                        ),
                        Some(marks) => if marks.low < marks.high {
                            &&& r == Ok::<DumpStep, DumpError>(
                                DumpStep::Read { partition: at as i32, from: marks.low },
                            )
                            &&& final(self).reading() == Some(marks)
                            &&& final(self).intact() == old(self).intact()
                        } else {
                            match r {
                                Ok(step) => {
                                    &&& step == DumpStep::Next
                                    &&& final(self).reading() is None
                                    &&& final(self).settled()
                                    &&& final(self).intact() == old(self).intact()
                                },
                                Err(DumpError::Archive(ArchiveError::Io(_))) => {
                                    !final(self).intact()
                                },
                                Err(_) => false,
                            }
                        },
                    }
                }
            }),
    {
        if self.next == self.count {
            return Ok(DumpStep::Finish);
        }
        proof {
            self.writer.lemma_valid();
        }
        let partition: i32 = self.next as i32;
        if let Err(error) = self.writer.begin_partition(partition) {
            return Err(DumpError::Archive(error));
        }
        let marks = match find_marks(&self.watermarks, partition) {
            Some(marks) => marks,
            None => {
                self.reading = None;
                return Err(
                    DumpError::Failed(
                        fail(
                            text::join2(
                                "missing captured watermarks for partition ",
                                text::decimal_i64(partition as i64).as_str(),
                            ),
                        ),
                    ),
                );
            },
        };
        if marks.low < marks.high {
            proof {
                lemma_marks(self.watermarks@, partition);
            }
            self.reading = Some(marks);
            return Ok(DumpStep::Read { partition, from: marks.low });
        }
        self.reading = None;
        if let Err(error) = self.writer.end_partition() {
            return Err(DumpError::Archive(error));
        }
        self.next = self.next + 1;
        Ok(DumpStep::Next)
    }
}

proof fn lemma_marks(marks: Seq<Watermarks>, partition: i32)
    ensures
        0 <= mark_position(marks, partition) <= marks.len(),
        marks_of(marks, partition) matches Some(found) ==> found.partition == partition,
    decreases marks.len(),
{
    if marks.len() > 0 && marks[0].partition != partition {
        lemma_marks(marks.drop_first(), partition);
    }
}

/// What keeps the client library from taking a partition that is to be read.
pub open spec fn reading_fault(topic: Seq<char>, from: i64) -> Option<FailureView> {
    failure::first(
        failure::zero_fault(topic, "topic name contains a NUL byte"@),
        if from < 0 {
            Some(
                failure::failed(
                    "Set partition offset error: InvalidArgument (Local: Invalid argument or configuration)"@,
                ),
            )
        } else {
            None
        },
    )
}

/// Lists the one partition that is read, and the offset where that starts.
pub fn reading_assignment(topic: &str, partition: i32, from: i64) -> (r: Result<
    TopicPartitionList,
    Failure,
>)
    ensures
        failure::tells(r, reading_fault(topic@, from)),
        r matches Ok(list) ==> partition_list::listed(list) == seq![
            EntryView { topic: topic@, partition, start: Some(StartOffset::At(from)) },
        ],
{
    require_no_zero(topic, "topic name contains a NUL byte")?;
    if from < 0 {
        return Err(
            fail(
                "Set partition offset error: InvalidArgument (Local: Invalid argument or configuration)".to_owned(),
            ),
        );
    }
    proof {
        assignment::lemma_zero_position(encode_utf8(topic@));
    }
    let mut list = partition_list::list_new();
    partition_list::list_add(&mut list, topic, partition, StartOffset::At(from));
    assert(partition_list::listed(list) =~= seq![
        EntryView { topic: topic@, partition, start: Some(StartOffset::At(from)) },
    ]);
    Ok(list)
}

/// What is said of a message from a partition that is not being read.
pub open spec fn stray_text(stray: i32, partition: i32) -> Seq<char> {
    "received unexpected partition "@ + text::decimal(stray as int) + " while dumping partition "@
        + text::decimal(partition as int)
}

/// What is wrong with an error in place of a message, while a partition is
/// read: nothing where the partition has run out at its high watermark or
/// behind it.
pub open spec fn error_detail(error: ReceiveError, marks: Watermarks) -> Option<
    Seq<char>,
> {
    match error {
        ReceiveError::PartitionEof { partition, position } if partition == marks.partition =>
        match partition_loop::short_fault(
            partition,
            partition_loop::reached(Some(marks.low), position),
            marks.high,
        ) {
            Some(fault) => Some(fault.message),
            None => None,
        },
        _ => Some(partition_loop::error_text(error)),
    }
}

/// A partition that runs out in front of its high watermark fails its dump.
pub proof fn law_short_reads_fail_the_dump(position: Option<i64>, marks: Watermarks)
    requires
        partition_loop::reached(Some(marks.low), position)->0 < marks.high,
    ensures
        error_detail(
            ReceiveError::PartitionEof { partition: marks.partition, position },
            marks,
        ) is Some,
{
}

/// What is said of an error while dumping a partition.
pub open spec fn consumer_text(
    topic: Seq<char>,
    partition: i32,
    group: Seq<char>,
    error: Seq<char>,
) -> Seq<char> {
    "consumer error while dumping "@ + topic + " partition "@ + text::decimal(partition as int)
        + " using group "@ + group + ": "@ + error
}

impl DumpSession {
    fn end_reading(&mut self) -> (r: Result<DumpProgress, DumpError>)
        requires
            old(self).valid(),
            old(self).reading() is Some,
        ensures
            final(self).valid(),
            final(self).topic() == old(self).topic(),
            final(self).group() == old(self).group(),
            final(self).partitions() == old(self).partitions(),
            final(self).watermarks() == old(self).watermarks(),
            final(self).written() == old(self).written(),
            final(self).reading() is None,
            match r {
                Ok(progress) => {
                    &&& progress == DumpProgress::PartitionDone
                    &&& final(self).settled()
                    &&& final(self).intact() == old(self).intact()
                },
                Err(DumpError::Archive(ArchiveError::Io(_))) => {
                    !final(self).intact()
                },
                Err(_) => false,
            },
    {
        proof {
            self.writer.lemma_valid();
        }
        self.reading = None;
        if let Err(error) = self.writer.end_partition() {
            return Err(DumpError::Archive(error));
        }
        self.next = self.next + 1;
        Ok(DumpProgress::PartitionDone)
    }

    /// Takes in a message: one from another partition fails the dump, one at or
    /// behind the high watermark ends the partition, any other is written.
    pub fn on_message(&mut self, message: SourceMessage) -> (r: Result<DumpProgress, DumpError>)
        requires
            old(self).valid(),
            old(self).reading() is Some,
        ensures
            final(self).valid(),
            final(self).topic() == old(self).topic(),
            final(self).group() == old(self).group(),
            final(self).partitions() == old(self).partitions(),
            final(self).watermarks() == old(self).watermarks(),
            ({
                let marks = old(self).reading()->0;
                if message.partition != marks.partition {
                    &&& r matches Err(DumpError::Failed(failure)) && failure@ == failure::failed(
                        stray_text(message.partition, marks.partition),
                    )
                    &&& *final(self) == *old(self)
                } else if message.offset >= marks.high {
                    &&& final(self).written() == old(self).written()
                    &&& final(self).reading() is None
                    &&& match r {
                        Ok(progress) => {
                            &&& progress == DumpProgress::PartitionDone
                            &&& final(self).settled()
                            &&& final(self).intact() == old(self).intact()
                        },
                        Err(DumpError::Archive(ArchiveError::Io(_))) => {
                            !final(self).intact()
                        },
                        Err(_) => false,
                    }
                } else if message.carries().headers.len() > u32::MAX {
                    &&& r matches Err(DumpError::Archive(ArchiveError::Fault(fault))) && fault
                        == ArchiveFault::HeaderCountLimit
                    &&& *final(self) == *old(self)
                } else {
                    &&& final(self).reading() == old(self).reading()
                    &&& match r {
                        Ok(progress) => {
                            &&& progress == DumpProgress::More
                            &&& final(self).intact() == old(self).intact()
                            &&& final(self).written() == old(self).written().drop_last().push(
                                old(self).written().last().push(message.carries()),
                            )
                        },
                        Err(DumpError::Archive(ArchiveError::Io(_))) => {
                            !final(self).intact()
                        },
                        Err(_) => false,
                    }
                }
            }),
    {
        let marks = match self.reading {
            Some(marks) => marks,
            None => {
                return Ok(DumpProgress::PartitionDone);
            },
        };
        if message.partition != marks.partition {
            let mut text = text::join3(
                "received unexpected partition ",
                text::decimal_i64(message.partition as i64).as_str(),
                " while dumping partition ",
            );
            text.append(text::decimal_i64(marks.partition as i64).as_str());
            return Err(DumpError::Failed(fail(text)));
        }
        if message.offset >= marks.high {
            return self.end_reading();
        }
        let record = archive_record_from_message(message);
        match self.writer.write_record(&record) {
            Ok(_) => Ok(DumpProgress::More),
            Err(error) => Err(DumpError::Archive(error)),
        }
    }

    /// Takes in an error in place of a message: the end of the partition ends
    /// it, once its high watermark has been reached; any other error fails the
    /// dump.
    pub fn on_error(&mut self, error: ReceiveError) -> (r: Result<DumpProgress, DumpError>)
        requires
            old(self).valid(),
            old(self).reading() is Some,
        ensures
            final(self).valid(),
            final(self).topic() == old(self).topic(),
            final(self).group() == old(self).group(),
            final(self).partitions() == old(self).partitions(),
            final(self).watermarks() == old(self).watermarks(),
            final(self).written() == old(self).written(),
            ({
                let partition = old(self).reading()->0.partition;
                match error_detail(error, old(self).reading()->0) {
                    None => {
                        &&& final(self).reading() is None
                        &&& match r {
                            Ok(progress) => {
                                &&& progress == DumpProgress::PartitionDone
                                &&& final(self).settled()
                                &&& final(self).intact() == old(self).intact()
                            },
                            Err(DumpError::Archive(ArchiveError::Io(_))) => {
                                !final(self).intact()
                            },
                            Err(_) => false,
                        }
                    },
                    Some(detail) => {
                        &&& r matches Err(DumpError::Failed(failure)) && failure@
                            == failure::failed(
                            consumer_text(
                                old(self).topic(),
                                partition,
                                old(self).group(),
                                detail,
                            ),
                        )
                        &&& *final(self) == *old(self)
                    },
                }
            }),
    {
        let marks = match self.reading {
            Some(marks) => marks,
            None => {
                return Ok(DumpProgress::PartitionDone);
            },
        };
        let detail = match error {
            ReceiveError::PartitionEof { partition, position } => {
                if partition == marks.partition {
                    let reached = match position {
                        Some(position) => Some(position),
                        None => Some(marks.low),
                    };
                    match check_reached(partition, reached, marks.high) {
                        Ok(_) => {
                            return self.end_reading();
                        },
                        Err(failure) => failure.message,
                    }
                } else {
                    text::join2("Partition EOF: ", text::decimal_i64(partition as i64).as_str())
                }
            },
            ReceiveError::Other(detail) => detail,
        };
        let number = text::decimal_i64(marks.partition as i64);
        let mut text = text::join7(
            "consumer error while dumping ",
            self.topic.as_str(),
            " partition ",
            number.as_str(),
            " using group ",
            self.group_id.as_str(),
            ": ",
        );
        text.append(detail.as_str());
        Err(DumpError::Failed(fail(text)))
    }

    /// Finishes the archive, once every partition has been dumped.
    pub fn finish(self) -> (r: Result<Vec<u8>, DumpError>)
        requires
            self.valid(),
            self.settled(),
            self.written().len() == self.partitions().len(),
        ensures
            match r {
                Ok(archive) => self.intact() ==> layout::archive_of(
                    archive@,
                    self.partitions(),
                    self.written(),
                ),
                Err(DumpError::Archive(ArchiveError::Io(_))) => true,
                Err(_) => false,
            },
    {
        match self.writer.finish() {
            Ok(archive) => Ok(archive),
            Err(error) => Err(DumpError::Archive(error)),
        }
    }
}

/// A source topic is dumped exactly where the configuration is valid, its topics
/// are well defined, and the reference is to a topic of a configured source.
pub proof fn law_dumps_need_a_configured_source(config: AppConfig, source: Seq<char>)
    ensures
        dump_fault(config, source) is None <==> {
            &&& config::config_fault(config) is None
            &&& topics::definitions_fault(config, config.topics@.len() as int) is None
            &&& topics::reference_fault(source) is None
            &&& config.sources@.contains_key(topics::reference_of(source).instance)
        },
{
}

/// A source topic is dumped exactly where it is in the metadata, without an error.
pub proof fn law_dumped_topics_are_found(metadata: Metadata, topic: Seq<char>)
    ensures
        dumped_topic_fault(metadata, topic) is None <==> (metadata::topic_of(
            metadata,
            topic,
        ) matches Some(found) && found.error is None),
{
}

/// Every partition of a topic is dumped, once each time it is listed, and in
/// increasing order.
pub proof fn law_every_partition_is_dumped(
    dumped: Seq<i32>,
    partitions: Seq<MetadataPartition>,
)
    requires
        sorted(dumped),
        dumped.to_multiset() == ids(partitions).to_multiset(),
    ensures
        dumped.len() == partitions.len(),
        forall|i: int|
            0 <= i < partitions.len() ==> dumped.contains((#[trigger] partitions[i]).id),
        forall|number: i32| #[trigger]
            dumped.contains(number) ==> exists|i: int|
                0 <= i < partitions.len() && (#[trigger] partitions[i]).id == number,
        forall|i: int, j: int| 0 <= i <= j < dumped.len() ==> dumped[i] <= dumped[j],
{
    broadcast use vstd::seq_lib::group_to_multiset_ensures;

    let all = ids(partitions);
    dumped.to_multiset_ensures();
    all.to_multiset_ensures();
    assert(dumped.len() == all.len());
    assert forall|i: int| 0 <= i < partitions.len() implies dumped.contains(
        (#[trigger] partitions[i]).id,
    ) by {
        assert(all[i] == partitions[i].id);
        assert(all.contains(partitions[i].id));
        assert(all.to_multiset().count(partitions[i].id) > 0);
    }
    assert forall|number: i32| #[trigger] dumped.contains(number) implies exists|i: int|
        0 <= i < partitions.len() && (#[trigger] partitions[i]).id == number by {
        assert(dumped.to_multiset().count(number) > 0);
        assert(all.contains(number));
        let i = choose|i: int| 0 <= i < all.len() && all[i] == number;
        assert(partitions[i].id == number);
    }
}

/// A partition's watermarks are the first that were captured for it, and there are
/// none exactly where none were.
pub proof fn law_partitions_have_their_watermarks(marks: Seq<Watermarks>, partition: i32)
    ensures
        match marks_of(marks, partition) {
            Some(found) => exists|i: int|
                0 <= i < marks.len() && #[trigger] marks[i] == found && found.partition
                    == partition && forall|j: int|
                    0 <= j < i ==> (#[trigger] marks[j]).partition != partition,
            None => forall|j: int|
                0 <= j < marks.len() ==> (#[trigger] marks[j]).partition != partition,
        },
{
    lemma_mark_position(marks, partition);
    let at = mark_position(marks, partition);
    if at < marks.len() {
        assert(marks[at] == marks_of(marks, partition)->0);
    }
}

proof fn lemma_mark_position(marks: Seq<Watermarks>, partition: i32)
    ensures
        0 <= mark_position(marks, partition) <= marks.len(),
        mark_position(marks, partition) < marks.len() ==> marks[mark_position(
            marks,
            partition,
        )].partition == partition,
        forall|j: int|
            0 <= j < mark_position(marks, partition) ==> (#[trigger] marks[j]).partition
                != partition,
    decreases marks.len(),
{
    if marks.len() > 0 && marks[0].partition != partition {
        let rest = marks.drop_first();
        lemma_mark_position(rest, partition);
        assert forall|j: int| 0 <= j < mark_position(marks, partition) implies (
        #[trigger] marks[j]).partition != partition by {
            if j > 0 {
                assert(rest[j - 1] == marks[j]);
            }
        }
    }
}

/// A partition is read exactly where the client library takes its topic's name and
/// the offset is not negative.
pub proof fn law_readings_are_taken(topic: Seq<char>, from: i64)
    ensures
        reading_fault(topic, from) is None <==> !encode_utf8(topic).contains(0) && from >= 0,
{
    failure::law_zero_bytes_are_refused(topic, "topic name contains a NUL byte"@);
}

/// Reading a partition ends without a message exactly where that partition has run
/// out at its high watermark or behind it.
pub proof fn law_dumped_partitions_reach_their_watermark(error: ReceiveError, marks: Watermarks)
    ensures
        error_detail(error, marks) is None <==> {
            &&& error is PartitionEof
            &&& error->partition == marks.partition
            &&& (match error->position {
                Some(position) => position,
                None => marks.low,
            }) >= marks.high
        },
{
}

} // verus!
