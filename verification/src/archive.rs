//! Topic archives: a versioned preamble in front of a zstd stream that holds
//! the records of each partition.

use crate::compression;
use crate::compression::{FrameDecoder, FrameEncoder};
use crate::layout;
use crate::layout::{EventView, HeaderView, ReaderState, RecordView, Step, VERSION, ZSTD_LEVEL};
use crate::text;
use crate::wire;
use crate::wire::{ArchiveError, ArchiveFault, ByteSource, Parsed, SliceSource};
use sha2::Digest;
use vstd::prelude::*;

verus! {

/// A record header: a key, and a value that may be absent.
#[derive(Debug, Clone, PartialEq, Eq)]
pub struct ArchiveHeader {
    pub key: String,
    pub value: Option<Vec<u8>>,
}

/// A record as an archive holds it.
#[derive(Debug, Clone, PartialEq, Eq)]
pub struct ArchiveRecord {
    pub timestamp: Option<i64>,
    pub key: Option<Vec<u8>>,
    pub payload: Option<Vec<u8>>,
    pub headers: Vec<ArchiveHeader>,
}

/// What a reader comes across in an archive.
#[derive(Debug)]
pub enum ArchiveEvent {
    PartitionStart(i32),
    Record(ArchiveRecord),
    PartitionEnd(i32),
}

impl View for ArchiveHeader {
    type V = HeaderView;

    open spec fn view(&self) -> HeaderView {
        HeaderView { key: self.key@, value: wire::option_view(self.value) }
    }
}

/// The views of some headers.
pub open spec fn header_views(headers: Seq<ArchiveHeader>) -> Seq<HeaderView> {
    headers.map_values(|header: ArchiveHeader| header@)
}

impl View for ArchiveRecord {
    type V = RecordView;

    open spec fn view(&self) -> RecordView {
        RecordView {
            timestamp: self.timestamp,
            key: wire::option_view(self.key),
            payload: wire::option_view(self.payload),
            headers: header_views(self.headers@),
        }
    }
}

impl View for ArchiveEvent {
    type V = EventView;

    open spec fn view(&self) -> EventView {
        match *self {
            ArchiveEvent::PartitionStart(partition) => EventView::PartitionStart(partition),
            ArchiveEvent::Record(record) => EventView::Record(record@),
            ArchiveEvent::PartitionEnd(partition) => EventView::PartitionEnd(partition),
        }
    }
}

/// The archive format version that is written and read.
pub fn format_version() -> (r: u16)
    ensures
        r == VERSION,
        r == 2,
{
    VERSION
}

fn magic_bytes() -> (r: Vec<u8>)
    ensures
        r@ == layout::magic(),
{
    let r: Vec<u8> = vec![0x46, 0x52, 0x41, 0x4e, 0x53, 0x53, 0x4f, 0x4e];
    assert(r@ == layout::magic());
    r
}

fn same_bytes(a: &[u8], b: &[u8]) -> (r: bool)
    ensures
        r == (a@ == b@),
{
    if a.len() != b.len() {
        return false;
    }
    let mut i: usize = 0;
    while i < a.len()
        invariant
            i <= a@.len(),
            a@.len() == b@.len(),
            forall|j: int| 0 <= j < i ==> a@[j] == b@[j],
        decreases a@.len() - i,
    {
        if a[i] != b[i] {
            return false;
        }
        i = i + 1;
    }
    assert(a@ =~= b@);
    true
}

/// Checks that partition numbers count up from zero.
pub fn validate_partitions(partitions: &[i32]) -> (r: Result<(), ArchiveFault>)
    ensures
        r == (match layout::partitions_fault(partitions@) {
            Some(fault) => Err::<(), ArchiveFault>(fault),
            None => Ok(()),
        }),
        r is Ok <==> layout::contiguous(partitions@),
{
    proof {
        layout::lemma_contiguous(partitions@);
    }
    let mut i: usize = 0;
    while i < partitions.len()
        invariant
            i <= partitions@.len(),
            layout::partitions_fault(partitions@.take(i as int)) is None,
            layout::partitions_fault(partitions@) is None <==> layout::contiguous(partitions@),
        decreases partitions@.len() - i,
    {
        let ghost front = partitions@.take(i + 1);
        assert(front.drop_last() == partitions@.take(i as int));
        proof {
            if layout::partitions_fault(front) is Some {
                layout::lemma_first_fault_stays(partitions@, i + 1);
            }
        }
        if i > 0x7fff_ffff {
            return Err(ArchiveFault::TooManyPartitions);
        }
        let expected: i32 = i as i32;
        let actual: i32 = partitions[i];
        if actual != expected {
            return Err(ArchiveFault::PartitionOutOfSequence { expected, actual });
        }
        i = i + 1;
    }
    assert(partitions@.take(i as int) == partitions@);
    Ok(())
}

fn encode_header(out: &mut Vec<u8>, header: &ArchiveHeader)
    ensures
        final(out)@ == old(out)@ + layout::header_bytes(header@),
        layout::header_fits(header@),
{
    wire::write_bytes(out, header.key.as_str().as_bytes());
    wire::write_optional_bytes(out, &header.value);
    assert(out@ == old(out)@ + layout::header_bytes(header@));
}

fn encode_headers(out: &mut Vec<u8>, headers: &Vec<ArchiveHeader>)
    ensures
        final(out)@ == old(out)@ + layout::headers_bytes(header_views(headers@)),
        forall|i: int|
            0 <= i < headers@.len() ==> layout::header_fits(
                #[trigger] header_views(headers@)[i],
            ),
{
    let ghost views = header_views(headers@);
    let mut i: usize = 0;
    assert(out@ == old(out)@ + layout::headers_bytes(views.take(0)));
    while i < headers.len()
        invariant
            i <= headers@.len(),
            views == header_views(headers@),
            out@ == old(out)@ + layout::headers_bytes(views.take(i as int)),
            forall|j: int| 0 <= j < i ==> layout::header_fits(#[trigger] views[j]),
        decreases headers@.len() - i,
    {
        encode_header(out, &headers[i]);
        assert(views.take(i + 1).drop_last() == views.take(i as int));
        assert(views.take(i + 1).last() == headers@[i as int]@);
        assert(out@ == old(out)@ + layout::headers_bytes(views.take(i + 1)));
        i = i + 1;
    }
    assert(views.take(i as int) == views);
}

/// The bytes of a record, marker first.
fn encode_record(record: &ArchiveRecord) -> (r: Result<Vec<u8>, ArchiveFault>)
    ensures
        match r {
            Ok(bytes) => layout::record_fits(record@) && bytes@ == layout::record_bytes(record@),
            Err(fault) => record.headers@.len() > u32::MAX && fault
                == ArchiveFault::HeaderCountLimit,
        },
{
    let count = match wire::usize_to_u32(record.headers.len(), ArchiveFault::HeaderCountLimit) {
        Ok(count) => count,
        Err(fault) => {
            return Err(fault);
        },
    };
    let mut out: Vec<u8> = Vec::new();
    wire::write_u8(&mut out, 1);
    wire::write_optional_i64(&mut out, record.timestamp);
    wire::write_optional_bytes(&mut out, &record.key);
    wire::write_optional_bytes(&mut out, &record.payload);
    wire::write_u32(&mut out, count);
    encode_headers(&mut out, &record.headers);
    assert(out@ == layout::record_bytes(record@));
    Ok(out)
}

/// Writes an archive into memory, partition by partition.
pub struct ArchiveWriter {
    encoder: FrameEncoder,
    partitions: Vec<i32>,
    next_partition: usize,
    partition_open: bool,
    blocks: Ghost<Seq<Seq<RecordView>>>,
    intact: Ghost<bool>,
}

impl ArchiveWriter {
    /// The declared partitions.
    pub closed spec fn declared(&self) -> Seq<i32> {
        self.partitions@
    }

    /// The records of each partition begun so far.
    pub closed spec fn written(&self) -> Seq<Seq<RecordView>> {
        self.blocks@
    }

    /// Whether the last begun partition has not been ended.
    pub closed spec fn is_open(&self) -> bool {
        self.partition_open
    }

    /// Whether the stream has taken in everything so far. A stream that has
    /// failed once holds an unknown part of what it was given.
    pub closed spec fn intact(&self) -> bool {
        self.intact@
    }

    closed spec fn content(&self) -> Seq<u8> {
        layout::declaration_bytes(self.partitions@) + if self.partition_open {
            layout::blocks_bytes(self.blocks@.drop_last()) + layout::records_bytes(
                self.blocks@.last(),
            )
        } else {
            layout::blocks_bytes(self.blocks@)
        }
    }

    /// What holds of every writer.
    pub closed spec fn valid(&self) -> bool {
        &&& layout::contiguous(self.partitions@)
        &&& self.next_partition <= self.partitions@.len()
        &&& self.partition_open ==> self.next_partition < self.partitions@.len()
        &&& self.blocks@.len() == self.next_partition + if self.partition_open {
            1int
        } else {
            0int
        }
        &&& layout::blocks_fit(self.blocks@)
        &&& self.intact@ ==> {
            &&& compression::encoder_content(self.encoder) == self.content()
            &&& compression::encoder_settings(self.encoder) == (ZSTD_LEVEL, true)
        }
    }

    /// What a caller may know of a writer.
    pub proof fn lemma_valid(&self)
        requires
            self.valid(),
        ensures
            layout::contiguous(self.declared()),
            layout::blocks_fit(self.written()),
            self.written().len() <= self.declared().len(),
            self.is_open() ==> self.written().len() > 0,
    {
    }

    /// A writer for an archive of the given partitions, whose numbers count up
    /// from zero.
    pub fn create(partitions: &[i32]) -> (r: Result<ArchiveWriter, ArchiveError>)
        ensures
            match layout::partitions_fault(partitions@) {
                Some(fault) => r == Err::<ArchiveWriter, ArchiveError>(ArchiveError::Fault(fault)),
                None => match r {
                    Ok(writer) => {
                        &&& writer.valid()
                        &&& writer.intact()
                        &&& writer.declared() == partitions@
                        &&& writer.written() == Seq::<Seq<RecordView>>::empty()
                        &&& !writer.is_open()
                    },
                    Err(error) => error is Io,
                },
            },
    {
        if let Err(fault) = validate_partitions(partitions) {
            return Err(ArchiveError::Fault(fault));
        }
        let mut encoder = match compression::encoder_new(ZSTD_LEVEL) {
            Ok(encoder) => encoder,
            Err(error) => {
                return Err(ArchiveError::Io(error));
            },
        };
        if let Err(error) = compression::encoder_checksum(&mut encoder, true) {
            return Err(ArchiveError::Io(error));
        }
        let mut declaration: Vec<u8> = Vec::new();
        wire::write_u32(&mut declaration, partitions.len() as u32);
        let mut copied: Vec<i32> = Vec::new();
        let mut i: usize = 0;
        assert(declaration@ == wire::le_bytes(partitions@.len(), 4) + layout::numbers_bytes(
            partitions@.take(0),
        ));
        while i < partitions.len()
            invariant
                i <= partitions@.len(),
                copied@ == partitions@.take(i as int),
                declaration@ == wire::le_bytes(partitions@.len(), 4) + layout::numbers_bytes(
                    partitions@.take(i as int),
                ),
            decreases partitions@.len() - i,
        {
            wire::write_i32(&mut declaration, partitions[i]);
            copied.push(partitions[i]);
            assert(partitions@.take(i + 1).drop_last() == partitions@.take(i as int));
            assert(declaration@ == wire::le_bytes(partitions@.len(), 4) + layout::numbers_bytes(
                partitions@.take(i + 1),
            ));
            i = i + 1;
        }
        assert(partitions@.take(i as int) == partitions@);
        if let Err(error) = compression::encoder_write(&mut encoder, declaration.as_slice()) {
            return Err(ArchiveError::Io(error));
        }
        let ghost none: Seq<Seq<RecordView>> = Seq::empty();
        assert(compression::encoder_content(encoder) == layout::declaration_bytes(partitions@)
            + layout::blocks_bytes(none));
        Ok(
            ArchiveWriter {
                encoder,
                partitions: copied,
                next_partition: 0,
                partition_open: false,
                blocks: Ghost(none),
                intact: Ghost(true),
            },
        )
    }

    /// Begins the next declared partition.
    pub fn begin_partition(&mut self, partition: i32) -> (r: Result<(), ArchiveError>)
        requires
            old(self).valid(),
        ensures
            final(self).valid(),
            r == (if old(self).is_open() {
                Err(ArchiveError::Fault(ArchiveFault::PartitionStillOpen(partition)))
            } else if old(self).written().len() == old(self).declared().len() {
                Err(ArchiveError::Fault(ArchiveFault::UndeclaredPartition))
            } else if partition != old(self).written().len() {
                Err(
                    ArchiveError::Fault(
                        ArchiveFault::UnexpectedPartition {
                            expected: old(self).written().len() as i32,
                            actual: partition,
                        },
                    ),
                )
            } else {
                Ok::<(), ArchiveError>(())
            }),
            r is Err ==> *final(self) == *old(self),
            r is Ok ==> {
                &&& final(self).declared() == old(self).declared()
                &&& final(self).written() == old(self).written().push(Seq::empty())
                &&& final(self).is_open()
                &&& final(self).intact() == old(self).intact()
            },
    {
        if self.partition_open {
            return Err(ArchiveError::Fault(ArchiveFault::PartitionStillOpen(partition)));
        }
        if self.next_partition == self.partitions.len() {
            return Err(ArchiveError::Fault(ArchiveFault::UndeclaredPartition));
        }
        let expected: i32 = self.partitions[self.next_partition];
        if partition != expected {
            return Err(
                ArchiveError::Fault(
                    ArchiveFault::UnexpectedPartition { expected, actual: partition },
                ),
            );
        }
        let ghost before = self.blocks@;
        self.partition_open = true;
        self.blocks = Ghost(before.push(Seq::empty()));
        assert(self.blocks@.drop_last() == before);
        assert(self.content() == old(self).content());
        Ok(())
    }

    /// Writes a record into the open partition.
    pub fn write_record(&mut self, record: &ArchiveRecord) -> (r: Result<(), ArchiveError>)
        requires
            old(self).valid(),
        ensures
            final(self).valid(),
            !old(self).is_open() ==> r == Err::<(), ArchiveError>(
                ArchiveError::Fault(ArchiveFault::RecordOutsidePartition),
            ),
            old(self).is_open() && record@.headers.len() > u32::MAX ==> r == Err::<
                (),
                ArchiveError,
            >(ArchiveError::Fault(ArchiveFault::HeaderCountLimit)),
            r matches Err(ArchiveError::Fault(_)) ==> *final(self) == *old(self) && (
            !old(self).is_open() || record@.headers.len() > u32::MAX),
            final(self).declared() == old(self).declared(),
            final(self).is_open() == old(self).is_open(),
            r is Ok ==> final(self).intact() == old(self).intact(),
            r is Ok ==> final(self).written() == old(self).written().drop_last().push(
                old(self).written().last().push(record@),
            ),
            r is Err ==> final(self).written() == old(self).written(),
            r matches Err(ArchiveError::Io(_)) ==> !final(self).intact(),
    {
        if !self.partition_open {
            return Err(ArchiveError::Fault(ArchiveFault::RecordOutsidePartition));
        }
        let bytes = match encode_record(record) {
            Ok(bytes) => bytes,
            Err(fault) => {
                return Err(ArchiveError::Fault(fault));
            },
        };
        if let Err(error) = compression::encoder_write(&mut self.encoder, bytes.as_slice()) {
            self.intact = Ghost(false);
            return Err(ArchiveError::Io(error));
        }
        let ghost front = self.blocks@.drop_last();
        let ghost last = self.blocks@.last();
        self.blocks = Ghost(front.push(last.push(record@)));
        proof {
            assert(self.blocks@.drop_last() == front);
            assert(last.push(record@).drop_last() == last);
            assert(self.content() =~= old(self).content() + layout::record_bytes(record@));
            assert forall|i: int| 0 <= i < self.blocks@.len() implies layout::records_fit(
                #[trigger] self.blocks@[i],
            ) by {
                assert(layout::records_fit(old(self).blocks@[i]));
            }
        }
        Ok(())
    }

    /// Ends the open partition.
    pub fn end_partition(&mut self) -> (r: Result<(), ArchiveError>)
        requires
            old(self).valid(),
        ensures
            final(self).valid(),
            !old(self).is_open() ==> r == Err::<(), ArchiveError>(
                ArchiveError::Fault(ArchiveFault::EndOutsidePartition),
            ) && *final(self) == *old(self),
            old(self).is_open() ==> !(r matches Err(ArchiveError::Fault(_))),
            final(self).declared() == old(self).declared(),
            final(self).written() == old(self).written(),
            r is Ok ==> !final(self).is_open() && final(self).intact() == old(self).intact(),
            r matches Err(ArchiveError::Io(_)) ==> final(self).is_open(),
            r matches Err(ArchiveError::Io(_)) ==> !final(self).intact(),
    {
        if !self.partition_open {
            return Err(ArchiveError::Fault(ArchiveFault::EndOutsidePartition));
        }
        let mut marker: Vec<u8> = Vec::new();
        wire::write_u8(&mut marker, 0);
        if let Err(error) = compression::encoder_write(&mut self.encoder, marker.as_slice()) {
            self.intact = Ghost(false);
            return Err(ArchiveError::Io(error));
        }
        self.partition_open = false;
        self.next_partition = self.next_partition + 1;
        assert(self.content() =~= old(self).content() + seq![0u8]);
        Ok(())
    }

    /// Finishes the archive once every declared partition has been ended.
    pub fn finish(self) -> (r: Result<Vec<u8>, ArchiveError>)
        requires
            self.valid(),
        ensures
            self.is_open() ==> r == Err::<Vec<u8>, ArchiveError>(
                ArchiveError::Fault(ArchiveFault::UnfinishedPartition),
            ),
            !self.is_open() && self.written().len() < self.declared().len() ==> r == Err::<
                Vec<u8>,
                ArchiveError,
            >(
                ArchiveError::Fault(
                    ArchiveFault::MissingPartitions(
                        (self.declared().len() - self.written().len()) as usize,
                    ),
                ),
            ),
            !self.is_open() && self.written().len() == self.declared().len() ==> match r {
                Ok(archive) => self.intact() ==> layout::archive_of(
                    archive@,
                    self.declared(),
                    self.written(),
                ),
                Err(error) => error is Io,
            },
    {
        if self.partition_open {
            return Err(ArchiveError::Fault(ArchiveFault::UnfinishedPartition));
        }
        if self.next_partition != self.partitions.len() {
            return Err(
                ArchiveError::Fault(
                    ArchiveFault::MissingPartitions(self.partitions.len() - self.next_partition),
                ),
            );
        }
        let mut stream = match compression::encoder_finish(self.encoder) {
            Ok(stream) => stream,
            Err(error) => {
                return Err(ArchiveError::Io(error));
            },
        };
        let ghost compressed = stream@;
        let mut archive: Vec<u8> = magic_bytes();
        wire::write_u16(&mut archive, VERSION);
        let ghost preamble = archive@;
        archive.append(&mut stream);
        proof {
            wire::lemma_le_round_trip(VERSION as nat, 2);
            assert(archive@ == preamble + compressed);
            assert(archive@.skip(10) == compressed);
        }
        Ok(archive)
    }
}

fn read_header<S: ByteSource>(source: &mut S) -> (r: Result<ArchiveHeader, ArchiveError>)
    ensures
        final(source).reliable() == old(source).reliable(),
        wire::agrees(
            old(source).upcoming(),
            final(source).upcoming(),
            old(source).reliable(),
            match r {
                Ok(header) => Ok(header@),
                Err(error) => Err(error),
            },
            layout::parse_header(old(source).upcoming()->0),
        ),
{
    let key = match wire::read_bytes(source) {
        Ok(bytes) => match text::utf8_text(bytes) {
            Some(key) => key,
            None => {
                return Err(ArchiveError::Fault(ArchiveFault::HeaderKeyEncoding));
            },
        },
        Err(error) => {
            return Err(error);
        },
    };
    match wire::read_optional_bytes(source) {
        Ok(value) => Ok(ArchiveHeader { key, value }),
        Err(error) => Err(error),
    }
}

fn read_headers<S: ByteSource>(source: &mut S, count: usize) -> (r: Result<
    Vec<ArchiveHeader>,
    ArchiveError,
>)
    ensures
        final(source).reliable() == old(source).reliable(),
        wire::agrees(
            old(source).upcoming(),
            final(source).upcoming(),
            old(source).reliable(),
            match r {
                Ok(headers) => Ok(header_views(headers@)),
                Err(error) => Err(error),
            },
            layout::parse_headers(old(source).upcoming()->0, count as nat),
        ),
{
    let mut headers: Vec<ArchiveHeader> = Vec::new();
    let mut i: usize = 0;
    assert(header_views(headers@) == Seq::<HeaderView>::empty());
    while i < count
        invariant
            i <= count,
            source.reliable() == old(source).reliable(),
            old(source).upcoming() is None ==> source.upcoming() is None,
            old(source).upcoming() is Some ==> source.upcoming() is Some && layout::parse_headers(
                old(source).upcoming()->0,
                i as nat,
            ) == Parsed::Value(header_views(headers@), source.upcoming()->0),
        decreases count - i,
    {
        let ghost before = headers@;
        match read_header(source) {
            Ok(header) => {
                headers.push(header);
                assert(header_views(headers@) == header_views(before).push(header@));
            },
            Err(error) => {
                proof {
                    if old(source).upcoming() is Some && error is Fault {
                        layout::lemma_headers_fault_stays(
                            old(source).upcoming()->0,
                            (i + 1) as nat,
                            count as nat,
                        );
                    }
                }
                return Err(error);
            },
        }
        i = i + 1;
    }
    Ok(headers)
}

/// Reads the fields of a record.
pub fn read_record<S: ByteSource>(source: &mut S) -> (r: Result<ArchiveRecord, ArchiveError>)
    ensures
        final(source).reliable() == old(source).reliable(),
        wire::agrees(
            old(source).upcoming(),
            final(source).upcoming(),
            old(source).reliable(),
            match r {
                Ok(record) => Ok(record@),
                Err(error) => Err(error),
            },
            layout::parse_record(old(source).upcoming()->0),
        ),
{
    let timestamp = match wire::read_optional_i64(source) {
        Ok(timestamp) => timestamp,
        Err(error) => {
            return Err(error);
        },
    };
    let key = match wire::read_optional_bytes(source) {
        Ok(key) => key,
        Err(error) => {
            return Err(error);
        },
    };
    let payload = match wire::read_optional_bytes(source) {
        Ok(payload) => payload,
        Err(error) => {
            return Err(error);
        },
    };
    let count = match wire::read_u32(source) {
        Ok(count) => wire::u32_to_usize(count),
        Err(error) => {
            return Err(error);
        },
    };
    match read_headers(source, count) {
        Ok(headers) => Ok(ArchiveRecord { timestamp, key, payload, headers }),
        Err(error) => Err(error),
    }
}

fn read_numbers<S: ByteSource>(source: &mut S, count: usize) -> (r: Result<
    Vec<i32>,
    ArchiveError,
>)
    ensures
        final(source).reliable() == old(source).reliable(),
        wire::agrees(
            old(source).upcoming(),
            final(source).upcoming(),
            old(source).reliable(),
            match r {
                Ok(numbers) => Ok(numbers@),
                Err(error) => Err(error),
            },
            layout::parse_numbers(old(source).upcoming()->0, count as nat),
        ),
{
    let mut numbers: Vec<i32> = Vec::new();
    let mut i: usize = 0;
    while i < count
        invariant
            i <= count,
            source.reliable() == old(source).reliable(),
            old(source).upcoming() is None ==> source.upcoming() is None,
            old(source).upcoming() is Some ==> source.upcoming() is Some && layout::parse_numbers(
                old(source).upcoming()->0,
                i as nat,
            ) == Parsed::Value(numbers@, source.upcoming()->0),
        decreases count - i,
    {
        match wire::read_i32(source) {
            Ok(number) => {
                numbers.push(number);
            },
            Err(error) => {
                proof {
                    if old(source).upcoming() is Some && error is Fault {
                        layout::lemma_numbers_fault_stays(
                            old(source).upcoming()->0,
                            (i + 1) as nat,
                            count as nat,
                        );
                    }
                }
                return Err(error);
            },
        }
        i = i + 1;
    }
    Ok(numbers)
}

/// Reads an archive's content, partition by partition.
pub struct ContentReader<S> {
    source: S,
    partitions: Vec<i32>,
    next_partition: usize,
    partition_open: bool,
    finished: bool,
}

impl<S: ByteSource> ContentReader<S> {
    /// The declared partitions.
    pub closed spec fn declared(&self) -> Seq<i32> {
        self.partitions@
    }

    /// How many partitions have been read to their end.
    pub closed spec fn done(&self) -> int {
        self.next_partition as int
    }

    /// Whether the reader is inside a partition.
    pub closed spec fn is_open(&self) -> bool {
        self.partition_open
    }

    /// Whether the reader has come to the end.
    pub closed spec fn is_finished(&self) -> bool {
        self.finished
    }

    /// Whether reading never fails.
    pub closed spec fn reliable(&self) -> bool {
        self.source.reliable()
    }

    /// Where the reader stands, where that is known of its source.
    pub closed spec fn state(&self) -> Option<ReaderState> {
        match self.source.upcoming() {
            Some(rest) => Some(
                ReaderState {
                    partitions: self.partitions@,
                    done: self.next_partition as int,
                    open: self.partition_open,
                    rest,
                },
            ),
            None => None,
        }
    }

    /// What holds of every reader.
    pub closed spec fn valid(&self) -> bool {
        &&& self.next_partition <= self.partitions@.len()
        &&& self.partition_open ==> self.next_partition < self.partitions@.len()
        &&& self.finished ==> !self.partition_open && self.next_partition == self.partitions@.len()
        &&& self.finished ==> self.source.upcoming() is Some
    }

    /// A reader comes to the end only of a source whose bytes are known up to
    /// the end.
    pub proof fn law_only_known_content_ends(&self)
        requires
            self.valid(),
            self.is_finished(),
        ensures
            self.state() is Some,
    {
    }

    /// Reads the declared partitions.
    pub fn open(source: S) -> (r: Result<ContentReader<S>, ArchiveError>)
        ensures
            r matches Ok(reader) ==> {
                &&& reader.valid()
                &&& layout::contiguous(reader.declared())
                &&& reader.done() == 0
                &&& !reader.is_open()
                &&& !reader.is_finished()
                &&& reader.reliable() == source.reliable()
                &&& reader.state() is Some == source.upcoming() is Some
            },
            source.reliable() ==> !(r matches Err(ArchiveError::Io(_))),
            source.upcoming() matches Some(content) ==> match r {
                Ok(reader) => {
                    &&& reader.state() is Some
                    &&& layout::parse_declaration(content) == Parsed::Value(
                        reader.declared(),
                        reader.state()->0.rest,
                    )
                    &&& reader.state()->0 == (ReaderState {
                        partitions: reader.declared(),
                        done: 0,
                        open: false,
                        rest: reader.state()->0.rest,
                    })
                },
                Err(ArchiveError::Fault(fault)) => layout::parse_declaration(content)
                    == Parsed::<Seq<i32>>::Fault(fault),
                Err(ArchiveError::Io(_)) => true,
            },
    {
        let mut source = source;
        let count = match wire::read_u32(&mut source) {
            Ok(count) => wire::u32_to_usize(count),
            Err(error) => {
                return Err(error);
            },
        };
        let partitions = match read_numbers(&mut source, count) {
            Ok(partitions) => partitions,
            Err(error) => {
                return Err(error);
            },
        };
        if let Err(fault) = validate_partitions(partitions.as_slice()) {
            return Err(ArchiveError::Fault(fault));
        }
        Ok(
            ContentReader {
                source,
                partitions,
                next_partition: 0,
                partition_open: false,
                finished: false,
            },
        )
    }

    /// The declared partitions.
    pub fn partitions(&self) -> (r: &[i32])
        ensures
            r@ == self.declared(),
    {
        self.partitions.as_slice()
    }

    /// The next thing in the archive, or nothing at its end.
    pub fn next_event(&mut self) -> (r: Result<Option<ArchiveEvent>, ArchiveError>)
        requires
            old(self).valid(),
        ensures
            final(self).valid(),
            final(self).declared() == old(self).declared(),
            final(self).reliable() == old(self).reliable(),
            old(self).is_finished() ==> r == Ok::<Option<ArchiveEvent>, ArchiveError>(None)
                && *final(self) == *old(self),
            !old(self).is_open() && old(self).done() < old(self).declared().len() ==> r == Ok::<
                Option<ArchiveEvent>,
                ArchiveError,
            >(Some(ArchiveEvent::PartitionStart(old(self).declared()[old(self).done()]))),
            r matches Ok(None) ==> final(self).is_finished(),
            r matches Ok(Some(_)) ==> !final(self).is_finished(),
            r matches Ok(None) ==> old(self).state() is Some,
            r is Ok ==> final(self).state() is Some == old(self).state() is Some,
            match r {
                Ok(Some(ArchiveEvent::PartitionStart(partition))) => {
                    &&& !old(self).is_open()
                    &&& final(self).is_open()
                    &&& final(self).done() == old(self).done()
                    &&& partition == old(self).declared()[old(self).done()]
                },
                Ok(Some(ArchiveEvent::Record(_))) => {
                    &&& old(self).is_open()
                    &&& final(self).is_open()
                    &&& final(self).done() == old(self).done()
                },
                Ok(Some(ArchiveEvent::PartitionEnd(partition))) => {
                    &&& old(self).is_open()
                    &&& !final(self).is_open()
                    &&& final(self).done() == old(self).done() + 1
                    &&& partition == old(self).declared()[old(self).done()]
                },
                Ok(None) => {
                    &&& !old(self).is_open()
                    &&& !final(self).is_open()
                    &&& final(self).done() == old(self).done()
                },
                Err(_) => {
                    &&& final(self).is_open() == old(self).is_open()
                    &&& final(self).done() == old(self).done()
                    &&& !final(self).is_finished()
                },
            },
            old(self).reliable() ==> !(r matches Err(ArchiveError::Io(_))),
            !old(self).is_finished() ==> (old(self).state() matches Some(state) ==> match r {
                Ok(Some(event)) => final(self).state() is Some && layout::step(state)
                    == Step::Event(event@, final(self).state()->0),
                Ok(None) => final(self).state() == Some(state) && layout::step(state) is End,
                Err(ArchiveError::Fault(fault)) => layout::step(state) == Step::Fault(fault),
                Err(ArchiveError::Io(_)) => true,
            }),
    {
        if self.finished {
            return Ok(None);
        }
        if !self.partition_open {
            if self.next_partition == self.partitions.len() {
                return match self.source.read_up_to(1) {
                    Ok(trailing) => if trailing.len() == 0 {
                        self.finished = true;
                        Ok(None)
                    } else {
                        Err(ArchiveError::Fault(ArchiveFault::TrailingData))
                    },
                    Err(error) => Err(ArchiveError::Io(error)),
                };
            }
            self.partition_open = true;
            return Ok(Some(ArchiveEvent::PartitionStart(self.partitions[self.next_partition])));
        }
        match wire::read_u8(&mut self.source) {
            Ok(0) => {
                assert(self.next_partition < self.partitions.len());
                let partition: i32 = self.partitions[self.next_partition];
                self.partition_open = false;
                self.next_partition = self.next_partition + 1;
                Ok(Some(ArchiveEvent::PartitionEnd(partition)))
            },
            Ok(1) => match read_record(&mut self.source) {
                Ok(record) => Ok(Some(ArchiveEvent::Record(record))),
                Err(error) => Err(error),
            },
            Ok(marker) => Err(ArchiveError::Fault(ArchiveFault::RecordMarker(marker))),
            Err(ArchiveError::Fault(_)) => Err(
                ArchiveError::Fault(ArchiveFault::MissingRecordMarker),
            ),
            Err(error) => Err(error),
        }
    }
}

/// A zstd stream as a source of bytes.
pub struct DecoderSource {
    decoder: FrameDecoder,
}

impl ByteSource for DecoderSource {
    closed spec fn upcoming(&self) -> Option<Seq<u8>> {
        compression::decoder_rest(self.decoder)
    }

    closed spec fn reliable(&self) -> bool {
        false
    }

    fn read_up_to(&mut self, limit: usize) -> (r: Result<Vec<u8>, std::io::Error>)
        ensures
            limit == 0 ==> *final(self) == *old(self),
    {
        if limit == 0 {
            proof {
                if let Some(rest) = self.upcoming() {
                    assert(rest.take(0) =~= Seq::<u8>::empty());
                    assert(rest.skip(0) =~= rest);
                }
            }
            return Ok(Vec::new());
        }
        compression::decoder_read(&mut self.decoder, limit)
    }
}

/// Reads an archive, partition by partition.
pub struct ArchiveReader {
    content: ContentReader<DecoderSource>,
}

fn read_preamble(archive: &[u8]) -> (r: Result<(), ArchiveError>)
    ensures
        match layout::parse_preamble(archive@) {
            Parsed::Value(_, body) => r is Ok && archive@.len() >= 10 && body == archive@.skip(10),
            Parsed::Fault(fault) => r == Err::<(), ArchiveError>(ArchiveError::Fault(fault)),
        },
{
    let mut source = SliceSource::new(archive);
    let magic = match wire::read_exact(&mut source, 8) {
        Ok(magic) => magic,
        Err(ArchiveError::Fault(_)) => {
            return Err(ArchiveError::Fault(ArchiveFault::TruncatedHeader));
        },
        Err(error) => {
            return Err(error);
        },
    };
    if !same_bytes(magic.as_slice(), magic_bytes().as_slice()) {
        return Err(ArchiveError::Fault(ArchiveFault::NotAnArchive));
    }
    match wire::read_u16(&mut source) {
        Ok(version) => {
            assert(archive@.skip(8).skip(2) == archive@.skip(10));
            if version != VERSION {
                Err(ArchiveError::Fault(ArchiveFault::UnsupportedVersion(version)))
            } else {
                Ok(())
            }
        },
        Err(error) => Err(error),
    }
}

/// The archive that a reader has been opened on: where the reader stands is
/// known exactly where the archive's compressed part decodes without a fault.
pub open spec fn opened(archive: Seq<u8>, reader: ArchiveReader) -> bool {
    reader.state() is Some == (layout::parse_preamble(archive) matches Parsed::Value(_, body)
        && compression::zstd_content(body) is Some)
}

/// What a read that succeeds keeps: whether it is known where the reader stands.
pub open spec fn reads_on(before: ArchiveReader, after: ArchiveReader) -> bool {
    before.state() is Some == after.state() is Some
}

/// An archive whose compressed part is damaged or breaks off is never read to a
/// clean end: however many reads succeed, the reader is not finished.
pub proof fn law_damaged_archives_never_end(archive: Seq<u8>, readers: Seq<ArchiveReader>)
    requires
        layout::parse_preamble(archive) matches Parsed::Value(_, body) ==>
            compression::zstd_content(body) is None,
        readers.len() > 0,
        opened(archive, readers[0]),
        forall|i: int|
            0 <= i < readers.len() - 1 ==> reads_on(#[trigger] readers[i], readers[i + 1]),
        readers.last().valid(),
    ensures
        readers.last().state() is None,
        !readers.last().is_finished(),
{
    lemma_unknown_stays(readers, readers.len() - 1);
    if readers.last().is_finished() {
        readers.last().law_only_sound_archives_end();
    }
}

proof fn lemma_unknown_stays(readers: Seq<ArchiveReader>, last: int)
    requires
        0 <= last < readers.len(),
        readers[0].state() is None,
        forall|i: int|
            0 <= i < readers.len() - 1 ==> reads_on(#[trigger] readers[i], readers[i + 1]),
    ensures
        readers[last].state() is None,
    decreases last,
{
    if last > 0 {
        lemma_unknown_stays(readers, last - 1);
        assert(reads_on(readers[last - 1], readers[last - 1 + 1]));
    }
}

impl ArchiveReader {
    /// The declared partitions.
    pub closed spec fn declared(&self) -> Seq<i32> {
        self.content.declared()
    }

    /// How many partitions have been read to their end.
    pub closed spec fn done(&self) -> int {
        self.content.done()
    }

    /// Whether the reader is inside a partition.
    pub closed spec fn is_open(&self) -> bool {
        self.content.is_open()
    }

    /// Whether the reader has come to the end.
    pub closed spec fn is_finished(&self) -> bool {
        self.content.is_finished()
    }

    /// Where the reader stands in an archive whose compressed part decodes
    /// without a fault.
    pub closed spec fn state(&self) -> Option<ReaderState> {
        self.content.state()
    }

    /// What holds of every reader.
    pub closed spec fn valid(&self) -> bool {
        self.content.valid()
    }

    /// A reader comes to the end only of an archive whose compressed part
    /// decodes without a fault.
    pub proof fn law_only_sound_archives_end(&self)
        requires
            self.valid(),
            self.is_finished(),
        ensures
            self.state() is Some,
    {
        self.content.law_only_known_content_ends();
    }

    /// Opens an archive: checks its preamble and reads the declared partitions.
    pub fn open(archive: &[u8]) -> (r: Result<ArchiveReader, ArchiveError>)
        ensures
            r matches Ok(reader) ==> {
                &&& reader.valid()
                &&& layout::contiguous(reader.declared())
                &&& reader.done() == 0
                &&& !reader.is_open()
                &&& !reader.is_finished()
                &&& opened(archive@, reader)
            },
            match layout::parse_preamble(archive@) {
                Parsed::Fault(fault) => r == Err::<ArchiveReader, ArchiveError>(
                    ArchiveError::Fault(fault),
                ),
                Parsed::Value(_, body) => compression::zstd_content(body) matches Some(content)
                    ==> match r {
                    Ok(reader) => {
                        &&& reader.state() is Some
                        &&& layout::parse_declaration(content) == Parsed::Value(
                            reader.declared(),
                            reader.state()->0.rest,
                        )
                        &&& reader.state()->0 == (ReaderState {
                            partitions: reader.declared(),
                            done: 0,
                            open: false,
                            rest: reader.state()->0.rest,
                        })
                    },
                    Err(ArchiveError::Fault(fault)) => layout::parse_declaration(content)
                        == Parsed::<Seq<i32>>::Fault(fault),
                    Err(ArchiveError::Io(_)) => true,
                },
            },
    {
        if let Err(error) = read_preamble(archive) {
            return Err(error);
        }
        let mut body: Vec<u8> = Vec::new();
        let mut i: usize = 10;
        while i < archive.len()
            invariant
                10 <= i <= archive@.len(),
                body@ == archive@.subrange(10, i as int),
            decreases archive@.len() - i,
        {
            body.push(archive[i]);
            i = i + 1;
        }
        assert(body@ == archive@.skip(10));
        let decoder = match compression::decoder_new(body) {
            Ok(decoder) => decoder,
            Err(error) => {
                return Err(ArchiveError::Io(error));
            },
        };
        match ContentReader::open(DecoderSource { decoder }) {
            Ok(content) => Ok(ArchiveReader { content }),
            Err(error) => Err(error),
        }
    }

    /// The declared partitions.
    pub fn partitions(&self) -> (r: &[i32])
        ensures
            r@ == self.declared(),
    {
        self.content.partitions()
    }

    /// The next thing in the archive, or nothing at its end.
    pub fn next_event(&mut self) -> (r: Result<Option<ArchiveEvent>, ArchiveError>)
        requires
            old(self).valid(),
        ensures
            final(self).valid(),
            final(self).declared() == old(self).declared(),
            old(self).is_finished() ==> r == Ok::<Option<ArchiveEvent>, ArchiveError>(None)
                && *final(self) == *old(self),
            !old(self).is_open() && old(self).done() < old(self).declared().len() ==> r == Ok::<
                Option<ArchiveEvent>,
                ArchiveError,
            >(Some(ArchiveEvent::PartitionStart(old(self).declared()[old(self).done()]))),
            r matches Ok(None) ==> final(self).is_finished(),
            r matches Ok(Some(_)) ==> !final(self).is_finished(),
            r matches Ok(None) ==> old(self).state() is Some,
            r is Ok ==> reads_on(*old(self), *final(self)),
            match r {
                Ok(Some(ArchiveEvent::PartitionStart(partition))) => {
                    &&& !old(self).is_open()
                    &&& final(self).is_open()
                    &&& final(self).done() == old(self).done()
                    &&& partition == old(self).declared()[old(self).done()]
                },
                Ok(Some(ArchiveEvent::Record(_))) => {
                    &&& old(self).is_open()
                    &&& final(self).is_open()
                    &&& final(self).done() == old(self).done()
                },
                Ok(Some(ArchiveEvent::PartitionEnd(partition))) => {
                    &&& old(self).is_open()
                    &&& !final(self).is_open()
                    &&& final(self).done() == old(self).done() + 1
                    &&& partition == old(self).declared()[old(self).done()]
                },
                Ok(None) => {
                    &&& !old(self).is_open()
                    &&& !final(self).is_open()
                    &&& final(self).done() == old(self).done()
                },
                Err(_) => {
                    &&& final(self).is_open() == old(self).is_open()
                    &&& final(self).done() == old(self).done()
                    &&& !final(self).is_finished()
                },
            },
            !old(self).is_finished() ==> (old(self).state() matches Some(state) ==> match r {
                Ok(Some(event)) => final(self).state() is Some && layout::step(state)
                    == Step::Event(event@, final(self).state()->0),
                Ok(None) => final(self).state() == Some(state) && layout::step(state) is End,
                Err(ArchiveError::Fault(fault)) => layout::step(state) == Step::Fault(fault),
                Err(ArchiveError::Io(_)) => true,
            }),
    {
        self.content.next_event()
    }
}

/// The SHA-256 digest of a byte string.
pub uninterp spec fn sha256(bytes: Seq<u8>) -> Seq<u8>;

/// `sha2::Sha256::digest`. Trusted: the digest is a function of the bytes, and
/// is 32 bytes long.
#[verifier::external_body]
pub(crate) fn sha256_digest(bytes: &[u8]) -> (r: Vec<u8>)
    ensures
        r@ == sha256(bytes@),
        r@.len() == 32,
{
    sha2::Sha256::digest(bytes).to_vec()
}

/// The fingerprint of an archive: its SHA-256 digest in lower-case hexadecimal.
pub fn fingerprint(archive: &[u8]) -> (r: String)
    ensures
        r@ == text::hex(sha256(archive@)),
{
    let digest = sha256_digest(archive);
    text::hex_text(digest.as_slice())
}

/// What is to be known of an archive before it is restored.
#[derive(Debug)]
pub struct ArchiveSummary {
    pub partitions: usize,
    pub fingerprint: String,
}

/// Opens an archive to see how many partitions it declares, and fingerprints
/// it.
pub fn summarize(archive: &[u8]) -> (r: Result<ArchiveSummary, ArchiveError>)
    ensures
        r matches Ok(summary) ==> summary.fingerprint@ == text::hex(sha256(archive@)),
        match layout::parse_preamble(archive@) {
            Parsed::Fault(fault) => r == Err::<ArchiveSummary, ArchiveError>(
                ArchiveError::Fault(fault),
            ),
            Parsed::Value(_, body) => compression::zstd_content(body) matches Some(content)
                ==> match r {
                Ok(summary) => layout::parse_declaration(content) matches Parsed::Value(
                    declared,
                    _,
                ) && summary.partitions == declared.len(),
                Err(ArchiveError::Fault(fault)) => layout::parse_declaration(content)
                    == Parsed::<Seq<i32>>::Fault(fault),
                Err(ArchiveError::Io(_)) => true,
            },
        },
{
    let reader = match ArchiveReader::open(archive) {
        Ok(reader) => reader,
        Err(error) => {
            return Err(error);
        },
    };
    Ok(ArchiveSummary { partitions: reader.partitions().len(), fingerprint: fingerprint(archive) })
}

/// What is said of a fault in the archive of the given name.
pub open spec fn fault_text(fault: ArchiveFault, archive: Seq<char>) -> Seq<char> {
    match fault {
        ArchiveFault::UnexpectedEnd => "failed to fill whole buffer"@,
        ArchiveFault::TruncatedHeader => "failed to read archive header from "@ + archive,
        ArchiveFault::NotAnArchive => archive + " is not a fransson archive"@,
        ArchiveFault::UnsupportedVersion(version) => "unsupported fransson archive version "@
            + text::decimal(version as int) + "; expected "@ + text::decimal(VERSION as int),
        ArchiveFault::PartitionOutOfSequence {
            expected,
            actual,
        } => "archive partitions must be contiguous from 0; expected "@ + text::decimal(
            expected as int,
        ) + ", got "@ + text::decimal(actual as int),
        ArchiveFault::TooManyPartitions => "too many archive partitions"@,
        ArchiveFault::HeaderCountLimit => "header count exceeds archive format limit"@,
        ArchiveFault::LengthLimit => "archive value length does not fit this platform"@,
        ArchiveFault::TimestampMarker(marker) => "invalid optional timestamp marker "@
            + text::decimal(marker as int),
        ArchiveFault::BytesMarker(marker) => "invalid optional bytes marker "@ + text::decimal(
            marker as int,
        ),
        ArchiveFault::MissingRecordMarker => "failed to read archive record marker"@,
        ArchiveFault::RecordMarker(marker) => "invalid archive record marker "@ + text::decimal(
            marker as int,
        ),
        ArchiveFault::HeaderKeyEncoding => "archive header key is not UTF-8"@,
        ArchiveFault::TrailingData => "archive has trailing decompressed data"@,
        ArchiveFault::PartitionStillOpen(partition) => "cannot begin partition "@ + text::decimal(
            partition as int,
        ) + " before ending the current partition"@,
        ArchiveFault::UndeclaredPartition => "archive contains more partition blocks than declared"@,
        ArchiveFault::UnexpectedPartition { expected, actual } => "expected archive partition "@
            + text::decimal(expected as int) + ", got "@ + text::decimal(actual as int),
        ArchiveFault::RecordOutsidePartition => "cannot write an archive record outside a partition"@,
        ArchiveFault::EndOutsidePartition => "cannot end an archive partition before beginning it"@,
        ArchiveFault::UnfinishedPartition => "cannot finish archive with an open partition"@,
        ArchiveFault::MissingPartitions(count) => "archive is missing "@ + text::decimal(
            count as int,
        ) + " partition blocks"@,
    }
}

fn numbered(before: &str, number: i64, after: &str) -> (r: String)
    ensures
        r@ == before@ + text::decimal(number as int) + after@,
{
    let digits = text::decimal_i64(number);
    let mut r = before.to_owned();
    r.append(digits.as_str());
    r.append(after);
    r
}

impl ArchiveFault {
    /// What is said of the fault in the archive of the given name.
    pub fn message(&self, archive: &str) -> (r: String)
        ensures
            r@ == fault_text(*self, archive@),
    {
        match *self {
            ArchiveFault::UnexpectedEnd => "failed to fill whole buffer".to_owned(),
            ArchiveFault::TruncatedHeader => {
                let mut r = "failed to read archive header from ".to_owned();
                r.append(archive);
                r
            },
            ArchiveFault::NotAnArchive => {
                let mut r = archive.to_owned();
                r.append(" is not a fransson archive");
                r
            },
            ArchiveFault::UnsupportedVersion(version) => {
                let mut r = numbered(
                    "unsupported fransson archive version ",
                    version as i64,
                    "; expected ",
                );
                r.append(text::decimal_u64(VERSION as u64).as_str());
                r
            },
            ArchiveFault::PartitionOutOfSequence { expected, actual } => {
                let mut r = numbered(
                    "archive partitions must be contiguous from 0; expected ",
                    expected as i64,
                    ", got ",
                );
                r.append(text::decimal_i64(actual as i64).as_str());
                r
            },
            ArchiveFault::TooManyPartitions => "too many archive partitions".to_owned(),
            ArchiveFault::HeaderCountLimit => "header count exceeds archive format limit".to_owned(),
            ArchiveFault::LengthLimit => "archive value length does not fit this platform".to_owned(),
            ArchiveFault::TimestampMarker(marker) => {
                let mut r = "invalid optional timestamp marker ".to_owned();
                r.append(text::decimal_u64(marker as u64).as_str());
                r
            },
            ArchiveFault::BytesMarker(marker) => {
                let mut r = "invalid optional bytes marker ".to_owned();
                r.append(text::decimal_u64(marker as u64).as_str());
                r
            },
            ArchiveFault::MissingRecordMarker => "failed to read archive record marker".to_owned(),
            ArchiveFault::RecordMarker(marker) => {
                let mut r = "invalid archive record marker ".to_owned();
                r.append(text::decimal_u64(marker as u64).as_str());
                r
            },
            ArchiveFault::HeaderKeyEncoding => "archive header key is not UTF-8".to_owned(),
            ArchiveFault::TrailingData => "archive has trailing decompressed data".to_owned(),
            ArchiveFault::PartitionStillOpen(partition) => numbered(
                "cannot begin partition ",
                partition as i64,
                " before ending the current partition",
            ),
            ArchiveFault::UndeclaredPartition => "archive contains more partition blocks than declared".to_owned(),
            ArchiveFault::UnexpectedPartition { expected, actual } => {
                let mut r = numbered("expected archive partition ", expected as i64, ", got ");
                r.append(text::decimal_i64(actual as i64).as_str());
                r
            },
            ArchiveFault::RecordOutsidePartition => "cannot write an archive record outside a partition".to_owned(),
            ArchiveFault::EndOutsidePartition => "cannot end an archive partition before beginning it".to_owned(),
            ArchiveFault::UnfinishedPartition => "cannot finish archive with an open partition".to_owned(),
            ArchiveFault::MissingPartitions(count) => {
                let mut r = "archive is missing ".to_owned();
                r.append(text::decimal_u64(count as u64).as_str());
                r.append(" partition blocks");
                r
            },
        }
    }
}

} // verus!
